use vstd::prelude::*;

use crate::token::{TokView, Token};
use crate::train::{spec_train_lines, train_with_lines};
use crate::transitions::{lemma_row_entries, table_wf, Transitions};
use crate::BoundaryConfigs;

verus! {

// ---------------------------------------------------------------------------
// Trusted access to the random-number library.
// ---------------------------------------------------------------------------

#[verifier::external_type_specification]
#[verifier::external_body]
pub struct ExThreadRng(rand::rngs::ThreadRng);

/// Holds rand's `WeightedIndex` distribution over `u32` weights, which
/// Verus cannot declare directly; opaque, touched only by the trusted
/// wrappers below.
#[verifier::external_body]
pub struct WeightedDist {
    dist: rand::distr::weighted::WeightedIndex<u32>,
}

/// The weights a `WeightedDist` distribution was built over.
pub uninterp spec fn weights_of(d: WeightedDist) -> Seq<u32>;

/// The sum of a sequence of weights.
pub open spec fn seq_sum(s: Seq<u32>) -> int
    decreases s.len(),
{
    if s.len() == 0 {
        0
    } else {
        seq_sum(s.drop_last()) + s.last()
    }
}

/// Relies on rand::rng to obtain the thread-local random generator.
#[verifier::external_body]
fn new_rng() -> rand::rngs::ThreadRng {
    rand::rng()
}

/// Relies on Rng::random_range over `0..n`: a uniformly random index
/// below `n`.  The call panics on an empty range, so `n` must be
/// positive.
#[verifier::external_body]
fn random_below(rng: &mut rand::rngs::ThreadRng, n: usize) -> (r: usize)
    requires
        n >= 1,
    ensures
        r < n,
{
    rand::Rng::random_range(rng, 0..n)
}

/// Relies on WeightedIndex::new: construction fails exactly when the
/// weights are empty, sum to zero, or their sum overflows `u32`; on
/// success the distribution holds exactly the given weights.
#[verifier::external_body]
fn make_weighted(weights: &Vec<u32>) -> (r: Option<WeightedDist>)
    ensures
        match r {
            Some(d) => weights_of(d) == weights@,
            None => weights@.len() == 0 || seq_sum(weights@) == 0 || seq_sum(weights@)
                > u32::MAX,
        },
        (weights@.len() > 0 && 0 < seq_sum(weights@) <= u32::MAX) ==> r is Some,
{
    match rand::distr::weighted::WeightedIndex::new(weights.iter().copied()) {
        Ok(dist) => Some(WeightedDist { dist }),
        Err(_) => None,
    }
}

/// Relies on WeightedIndex::sample: the index of one weight, drawn with
/// probability proportional to the weights; an index whose weight is
/// zero is never returned.
#[verifier::external_body]
fn sample_weighted(d: &WeightedDist, rng: &mut rand::rngs::ThreadRng) -> (r: usize)
    ensures
        r < weights_of(*d).len(),
        weights_of(*d)[r as int] > 0,
{
    rand::distr::Distribution::sample(&d.dist, rng)
}

// ---------------------------------------------------------------------------
// What a generation step may produce.
// ---------------------------------------------------------------------------

/// The source token a step samples from: the current token when it is a
/// known key; at a boundary with no recorded row, any known key (chosen
/// uniformly at random as a fallback start).
pub open spec fn source_ok(
    m: Map<TokView, Map<TokView, u32>>,
    last: TokView,
    src: TokView,
) -> bool {
    if m.dom().contains(last) {
        src == last
    } else {
        last is Boundary && m.dom().contains(src)
    }
}

/// Token `t` is a possible outcome of one generation step taken at
/// `last`: it is a recorded destination of a legitimate source.
pub open spec fn can_emit(m: Map<TokView, Map<TokView, u32>>, last: TokView, t: TokView) -> bool {
    exists|src: TokView| source_ok(m, last, src) && #[trigger] m[src].dom().contains(t)
}

/// A true dead end: the current token has no row, and the boundary
/// fallback has nothing to offer either.
pub open spec fn stuck(m: Map<TokView, Map<TokView, u32>>, last: TokView) -> bool {
    !m.dom().contains(last) && (!(last is Boundary) || m.dom() =~= Set::<TokView>::empty())
}

/// The step taken at `last` can only produce `t`: the current token's
/// row exists and `t` is its sole destination.
pub open spec fn forced(m: Map<TokView, Map<TokView, u32>>, last: TokView, t: TokView) -> bool {
    m.dom().contains(last) && m[last].dom() =~= set![t]
}

/// A word sequence the generator may emit starting at `from`: each word
/// is a possible outcome of a step taken at the previous one.
pub open spec fn valid_emission(
    m: Map<TokView, Map<TokView, u32>>,
    from: TokView,
    words: Seq<Seq<char>>,
) -> bool
    decreases words.len(),
{
    words.len() == 0 || (can_emit(m, from, TokView::Word(words[0])) && valid_emission(
        m,
        TokView::Word(words[0]),
        words.drop_first(),
    ))
}

/// Where a walk stands after emitting `words` from `from`.
pub open spec fn emission_end(from: TokView, words: Seq<Seq<char>>) -> TokView {
    if words.len() == 0 {
        from
    } else {
        TokView::Word(words.last())
    }
}

/// The generator may stop at `t`: no single word is the forced outcome
/// of the next step.
pub open spec fn stop_allowed(m: Map<TokView, Map<TokView, u32>>, t: TokView) -> bool {
    !(exists|w: Seq<char>| forced(m, t, TokView::Word(w)))
}

/// Some legitimate source for a step taken at `last` offers at least two
/// different destinations.
pub open spec fn multiple_destinations(m: Map<TokView, Map<TokView, u32>>, last: TokView) -> bool {
    exists|src: TokView, t1: TokView, t2: TokView|
        source_ok(m, last, src) && #[trigger] m[src].dom().contains(t1)
            && #[trigger] m[src].dom().contains(t2) && t1 != t2
}

/// The parallel arrays handed to the sampler faithfully describe the
/// row of `src`: same length, destinations with their stored counts, no
/// destination twice.
spec fn row_matches(
    m: Map<TokView, Map<TokView, u32>>,
    src: TokView,
    counts: Seq<u32>,
    toks: Seq<Token>,
) -> bool {
    &&& m.dom().contains(src)
    &&& counts.len() == toks.len()
    &&& toks.len() >= 1
    &&& (forall|i: int| 0 <= i < toks.len() ==> m[src].dom().contains(#[trigger] toks[i]@))
    &&& (forall|i: int| 0 <= i < toks.len() ==> counts[i] == m[src][#[trigger] toks[i]@])
    &&& (forall|i: int, j: int| 0 <= i < j < toks.len() ==> toks[i]@ != toks[j]@)
}

/// Decomposes a row of transition counts into a pair of parallel arrays,
/// counts and destination tokens, ready for use with the sampler.
pub fn decompose_transitions(cells: &Vec<(Token, u32)>) -> (r: (Vec<u32>, Vec<Token>))
    ensures
        r.0@.len() == cells@.len(),
        r.1@.len() == cells@.len(),
        forall|i: int| 0 <= i < cells@.len() ==> r.0@[i] == cells@[i].1,
        forall|i: int| 0 <= i < cells@.len() ==> (#[trigger] r.1@[i])@ == cells@[i].0@,
{
    let n = cells.len();
    let mut counts: Vec<u32> = Vec::new();
    let mut toks: Vec<Token> = Vec::new();
    let mut i: usize = 0;
    while i < n
        invariant
            n == cells@.len(),
            0 <= i <= n,
            counts@.len() == i,
            toks@.len() == i,
            forall|j: int| 0 <= j < i ==> counts@[j] == cells@[j].1,
            forall|j: int| 0 <= j < i ==> (#[trigger] toks@[j])@ == cells@[j].0@,
        decreases n - i,
    {
        counts.push(cells[i].1);
        toks.push(cells[i].0.clone());
        i += 1;
    }
    (counts, toks)
}

proof fn lemma_seq_sum_pos(s: Seq<u32>)
    requires
        s.len() >= 1,
        forall|i: int| 0 <= i < s.len() ==> s[i] >= 1,
    ensures
        seq_sum(s) >= 1,
    decreases s.len(),
{
    assert(s.last() == s[s.len() - 1]);
    if s.len() == 1 {
        assert(s.drop_last() =~= Seq::<u32>::empty());
        assert(seq_sum(Seq::<u32>::empty()) == 0);
    } else {
        assert(forall|i: int| 0 <= i < s.drop_last().len() ==> s.drop_last()[i] >= 1);
        lemma_seq_sum_pos(s.drop_last());
    }
}

// ---------------------------------------------------------------------------
// The generator.
// ---------------------------------------------------------------------------

/// Generates text from its training data by walking the transition
/// table: from the current token, the next is drawn among its recorded
/// destinations with probability proportional to their counts.
///
/// A step taken at a boundary samples from the boundary's own row when
/// one was recorded — the usual case after training — and otherwise
/// falls back to a known source chosen uniformly at random.
pub struct MarkovGenerator {
    token_transitions: Transitions,
    rng: rand::rngs::ThreadRng,
    last_token: Token,
    boundary_config: BoundaryConfigs,
}

impl MarkovGenerator {
    /// The trained transition counts.
    pub closed spec fn table(&self) -> Map<TokView, Map<TokView, u32>> {
        self.token_transitions@
    }

    /// The token the walk currently stands on.
    pub closed spec fn last(&self) -> TokView {
        self.last_token@
    }

    /// The boundary policy used for training.
    pub closed spec fn config(&self) -> BoundaryConfigs {
        self.boundary_config
    }

    /// The generator's table is well formed.
    pub closed spec fn inv(&self) -> bool {
        self.token_transitions.wf()
    }

    /// A fresh, untrained generator, standing on the boundary.
    pub fn new(boundary_config: BoundaryConfigs) -> (r: MarkovGenerator)
        ensures
            r.inv(),
            r.table() == Map::<TokView, Map<TokView, u32>>::empty(),
            r.last() == TokView::Boundary,
            r.config() == boundary_config,
    {
        MarkovGenerator {
            token_transitions: Transitions::new(),
            rng: new_rng(),
            last_token: Token::Boundary,
            boundary_config,
        }
    }

    /// Trains the generator on a corpus given as lines of text.
    pub fn train(&mut self, lines: &Vec<String>)
        requires
            old(self).inv(),
        ensures
            final(self).inv(),
            final(self).table() == spec_train_lines(
                old(self).table(),
                lines.deep_view(),
                old(self).config(),
                TokView::Boundary,
            ),
            final(self).config() == old(self).config(),
            final(self).last() == old(self).last(),
    {
        train_with_lines(lines, &mut self.token_transitions, &self.boundary_config)
    }

    /// One generation step.  Emits the text of the word the walk moves
    /// to, or `None` when the walk stops: at a true dead end, when the
    /// drawn destination is the boundary, or when the row is degenerate
    /// for the sampler (treated as a dead end, never an error).
    pub fn produce_next(&mut self) -> (r: Option<String>)
        requires
            old(self).inv(),
        ensures
            final(self).inv(),
            final(self).table() == old(self).table(),
            final(self).config() == old(self).config(),
            match r {
                Some(s) => can_emit(old(self).table(), old(self).last(), TokView::Word(s@))
                    && final(self).last() == TokView::Word(s@),
                None => final(self).last() == TokView::Boundary,
            },
            stuck(old(self).table(), old(self).last()) ==> r is None,
            r is None ==> stuck(old(self).table(), old(self).last()) || can_emit(
                old(self).table(),
                old(self).last(),
                TokView::Boundary,
            ) || multiple_destinations(old(self).table(), old(self).last()),
            forall|w: Seq<char>|
                forced(old(self).table(), old(self).last(), TokView::Word(w)) ==> (r matches Some(
                    s,
                ) && s@ == w),
            forced(old(self).table(), old(self).last(), TokView::Boundary) ==> r is None,
    {
        let ghost m = self.token_transitions@;
        let ghost last0 = self.last_token@;
        let ghost mut src: TokView = last0;
        proof {
            self.token_transitions.lemma_table_wf();
        }
        let selected: Option<(Vec<u32>, Vec<Token>)> = match self.token_transitions.next_tokens(
            &self.last_token,
        ) {
            Some(cells) => {
                proof {
                    lemma_row_entries(cells@);
                }
                Some(decompose_transitions(cells))
            },
            None => {
                if self.last_token.is_boundary() {
                    let keys = self.token_transitions.last_tokens();
                    if keys.len() > 0 {
                        let ki = random_below(&mut self.rng, keys.len());
                        proof {
                            src = keys@[ki as int]@;
                        }
                        match self.token_transitions.next_tokens(&keys[ki]) {
                            Some(cells) => {
                                proof {
                                    lemma_row_entries(cells@);
                                }
                                Some(decompose_transitions(cells))
                            },
                            None => {
                                proof {
                                    assert(false);
                                }
                                None
                            },
                        }
                    } else {
                        proof {
                            if !(m.dom() =~= Set::<TokView>::empty()) {
                                let k = choose|k: TokView| m.dom().contains(k);
                                assert(false);
                            }
                        }
                        None
                    }
                } else {
                    None
                }
            },
        };
        let (counts, toks): (Vec<u32>, Vec<Token>) = match selected {
            Some(p) => p,
            None => {
                self.last_token = Token::Boundary;
                return None;
            },
        };
        proof {
            assert(row_matches(m, src, counts@, toks@));
            assert(source_ok(m, last0, src));
            assert(m.dom().contains(last0) ==> src == last0);
        }
        // Reject a row whose total weight would overflow the sampler:
        // defensively treated as a dead end.
        let n = counts.len();
        let mut total: u64 = 0;
        let mut i: usize = 0;
        proof {
            assert(counts@.take(0) =~= Seq::<u32>::empty());
        }
        while i < n
            invariant
                n == counts@.len(),
                0 <= i <= n,
                total == seq_sum(counts@.take(i as int)),
                total <= u32::MAX,
                row_matches(m, src, counts@, toks@),
                source_ok(m, last0, src),
                m.dom().contains(last0) ==> src == last0,
                table_wf(m),
                self.inv(),
                self.token_transitions@ == m,
                self.boundary_config == old(self).boundary_config,
                self.last_token@ == last0,
                m == old(self).table(),
                last0 == old(self).last(),
            decreases n - i,
        {
            proof {
                assert(counts@.take(i + 1).drop_last() =~= counts@.take(i as int));
            }
            total = total + counts[i] as u64;
            if total > u32::MAX as u64 {
                proof {
                    // A forced row is a single cell whose count fits, so
                    // this bail-out cannot happen there.
                    assert forall|w: Seq<char>|
                        !forced(m, last0, TokView::Word(w)) by {
                        if forced(m, last0, TokView::Word(w)) {
                            assert(toks@[0]@ == TokView::Word(w));
                            if toks@.len() >= 2 {
                                assert(toks@[1]@ == TokView::Word(w));
                            }
                            assert(toks@.len() == 1);
                            assert(i as int + 1 <= 1);
                            assert(counts@.take(1) =~= counts@);
                            assert(total == counts@[0]);
                        }
                    }
                    if forced(m, last0, TokView::Boundary) {
                        assert(toks@[0]@ == TokView::Boundary);
                        if toks@.len() >= 2 {
                            assert(toks@[1]@ == TokView::Boundary);
                        }
                        assert(toks@.len() == 1);
                        assert(counts@.take(1) =~= counts@);
                        assert(total == counts@[0]);
                    }
                    // A single-cell row cannot overflow either, so at
                    // least two destinations are on offer.
                    if toks@.len() == 1 {
                        assert(counts@.take(1) =~= counts@);
                        assert(total == counts@[0]);
                        assert(false);
                    }
                    assert(source_ok(m, last0, src) && m[src].dom().contains(toks@[0]@)
                        && m[src].dom().contains(toks@[1]@) && toks@[0]@ != toks@[1]@);
                    assert(multiple_destinations(m, last0));
                }
                self.last_token = Token::Boundary;
                return None;
            }
            i += 1;
        }
        proof {
            assert(counts@.take(n as int) =~= counts@);
            assert forall|j: int| 0 <= j < counts@.len() implies counts@[j] >= 1 by {
                assert(m[src].dom().contains(toks@[j]@));
            }
            lemma_seq_sum_pos(counts@);
        }
        let dist = match make_weighted(&counts) {
            Some(d) => d,
            None => {
                proof {
                    assert(false);
                }
                self.last_token = Token::Boundary;
                return None;
            },
        };
        let idx = sample_weighted(&dist, &mut self.rng);
        let chosen: Token = toks[idx].clone();
        proof {
            assert(chosen@ == toks@[idx as int]@);
            assert(m[src].dom().contains(chosen@));
            assert(can_emit(m, last0, chosen@));
            assert forall|w: Seq<char>|
                forced(m, last0, TokView::Word(w)) implies chosen@ == TokView::Word(w) by {
                assert(toks@[idx as int]@ == TokView::Word(w));
            }
            if forced(m, last0, TokView::Boundary) {
                assert(toks@[idx as int]@ == TokView::Boundary);
            }
        }
        self.last_token = chosen;
        match &self.last_token {
            Token::Word(s) => Some(s.clone()),
            Token::Boundary => None,
        }
    }

    /// Generates up to `limit` words: steps the walk repeatedly, stopping
    /// early when a step emits nothing.
    pub fn generate(&mut self, limit: usize) -> (r: Vec<String>)
        requires
            old(self).inv(),
        ensures
            final(self).inv(),
            final(self).table() == old(self).table(),
            final(self).config() == old(self).config(),
            r@.len() <= limit,
            valid_emission(old(self).table(), old(self).last(), r.deep_view()),
            r@.len() < limit ==> final(self).last() == TokView::Boundary && stop_allowed(
                old(self).table(),
                emission_end(old(self).last(), r.deep_view()),
            ),
            r@.len() == limit ==> final(self).last() == emission_end(
                old(self).last(),
                r.deep_view(),
            ),
    {
        let ghost m = self.table();
        let ghost last0 = self.last();
        let mut out: Vec<String> = Vec::new();
        proof {
            assert(out.deep_view() =~= Seq::<Seq<char>>::empty());
        }
        while out.len() < limit
            invariant
                self.inv(),
                self.table() == m,
                self.config() == old(self).config(),
                m == old(self).table(),
                last0 == old(self).last(),
                out@.len() <= limit,
                valid_emission(m, last0, out.deep_view()),
                self.last() == emission_end(last0, out.deep_view()),
            decreases limit - out.len(),
        {
            let ghost words0 = out.deep_view();
            match self.produce_next() {
                Some(s) => {
                    proof {
                        lemma_valid_emission_push(m, last0, words0, s@);
                    }
                    out.push(s);
                    proof {
                        assert(out.deep_view() =~= words0.push(out@.last()@));
                    }
                },
                None => {
                    proof {
                        assert(stop_allowed(m, emission_end(last0, out.deep_view())));
                    }
                    return out;
                },
            }
        }
        out
    }
}

proof fn lemma_valid_emission_push(
    m: Map<TokView, Map<TokView, u32>>,
    from: TokView,
    words: Seq<Seq<char>>,
    w: Seq<char>,
)
    requires
        valid_emission(m, from, words),
        can_emit(m, emission_end(from, words), TokView::Word(w)),
    ensures
        valid_emission(m, from, words.push(w)),
    decreases words.len(),
{
    let ws2 = words.push(w);
    if words.len() == 0 {
        assert(ws2[0] == w);
        assert(emission_end(from, words) == from);
        assert(can_emit(m, from, TokView::Word(w)));
        assert(ws2.drop_first() =~= Seq::<Seq<char>>::empty());
        assert(valid_emission(m, TokView::Word(w), ws2.drop_first()));
        assert(valid_emission(m, from, ws2));
    } else {
        assert(can_emit(m, from, TokView::Word(words[0])));
        assert(valid_emission(m, TokView::Word(words[0]), words.drop_first()));
        if words.len() == 1 {
            assert(words.drop_first().len() == 0);
            assert(words.last() == words[0]);
            assert(emission_end(TokView::Word(words[0]), words.drop_first()) == TokView::Word(
                words[0],
            ));
        } else {
            assert(words.drop_first().last() == words.last());
        }
        assert(emission_end(TokView::Word(words[0]), words.drop_first()) == emission_end(
            from,
            words,
        ));
        lemma_valid_emission_push(m, TokView::Word(words[0]), words.drop_first(), w);
        assert(ws2.drop_first() =~= words.drop_first().push(w));
        assert(ws2[0] == words[0]);
        assert(valid_emission(m, TokView::Word(ws2[0]), ws2.drop_first()));
        assert(valid_emission(m, from, ws2));
    }
}

// ---------------------------------------------------------------------------
// Laws of generation.
// ---------------------------------------------------------------------------

/// Law: nothing can be emitted from an empty table; generation from an
/// untrained model produces no words at all, on every run.
pub proof fn lemma_empty_table_emits_nothing(
    m: Map<TokView, Map<TokView, u32>>,
    from: TokView,
    words: Seq<Seq<char>>,
)
    requires
        m.dom() =~= Set::<TokView>::empty(),
        valid_emission(m, from, words),
    ensures
        words.len() == 0,
{
    if words.len() > 0 {
        let src = choose|src: TokView|
            source_ok(m, from, src) && #[trigger] m[src].dom().contains(
                TokView::Word(words[0]),
            );
        assert(m.dom().contains(src));
    }
}

/// Law: when every destination recorded anywhere in a well-formed table
/// is the single word `w`, every run emits only `w`, and the walk can
/// never stop while the requested count is not reached, wherever in the
/// table it stands.
pub proof fn lemma_self_loop_generation(
    m: Map<TokView, Map<TokView, u32>>,
    w: Seq<char>,
    from: TokView,
    words: Seq<Seq<char>>,
)
    requires
        table_wf(m),
        forall|src: TokView, t: TokView|
            m.dom().contains(src) && #[trigger] m[src].dom().contains(t) ==> t == TokView::Word(
                w,
            ),
        m.dom().contains(from),
        m.dom().contains(TokView::Word(w)),
        valid_emission(m, from, words),
    ensures
        forall|i: int| 0 <= i < words.len() ==> words[i] == w,
        !stop_allowed(m, emission_end(from, words)),
    decreases words.len(),
{
    if words.len() > 0 {
        let src = choose|src: TokView|
            source_ok(m, from, src) && #[trigger] m[src].dom().contains(
                TokView::Word(words[0]),
            );
        assert(m.dom().contains(src));
        assert(words[0] == w);
        lemma_self_loop_generation(m, w, TokView::Word(words[0]), words.drop_first());
        assert forall|i: int| 0 <= i < words.len() implies words[i] == w by {
            if i > 0 {
                assert(words.drop_first()[i - 1] == words[i]);
            }
        }
        assert(emission_end(TokView::Word(words[0]), words.drop_first()) == emission_end(
            from,
            words,
        ));
    } else {
        let end = emission_end(from, words);
        assert(end == from);
        let t0 = choose|t0: TokView| #[trigger] m[end].dom().contains(t0);
        assert(m[end].dom().contains(t0));
        assert(t0 == TokView::Word(w));
        assert(m[end].dom() =~= set![TokView::Word(w)]);
        assert(forced(m, end, TokView::Word(w)));
    }
}

/// Law: in a table whose only chain is boundary to `a`, `a` to `b`, and
/// `b` back to the boundary, a walk started at the boundary emits at
/// most two words; the first can only be `a` and the second only `b`.
pub proof fn lemma_two_word_chain(
    m: Map<TokView, Map<TokView, u32>>,
    a: Seq<char>,
    b: Seq<char>,
    words: Seq<Seq<char>>,
)
    requires
        m.dom() =~= set![TokView::Boundary, TokView::Word(a), TokView::Word(b)],
        m[TokView::Boundary].dom() =~= set![TokView::Word(a)],
        m[TokView::Word(a)].dom() =~= set![TokView::Word(b)],
        m[TokView::Word(b)].dom() =~= set![TokView::Boundary],
        valid_emission(m, TokView::Boundary, words),
    ensures
        words.len() <= 2,
        words.len() >= 1 ==> words[0] == a,
        words.len() == 2 ==> words[1] == b,
{
    if words.len() >= 1 {
        let src0 = choose|src: TokView|
            source_ok(m, TokView::Boundary, src) && #[trigger] m[src].dom().contains(
                TokView::Word(words[0]),
            );
        assert(src0 == TokView::Boundary);
        assert(words[0] == a);
        assert(valid_emission(m, TokView::Word(a), words.drop_first()));
        if words.len() >= 2 {
            let rest = words.drop_first();
            assert(rest[0] == words[1]);
            let src1 = choose|src: TokView|
                source_ok(m, TokView::Word(a), src) && #[trigger] m[src].dom().contains(
                    TokView::Word(rest[0]),
                );
            assert(src1 == TokView::Word(a));
            assert(words[1] == b);
            assert(valid_emission(m, TokView::Word(b), rest.drop_first()));
            if words.len() >= 3 {
                let rest2 = rest.drop_first();
                assert(rest2[0] == words[2]);
                let src2 = choose|src: TokView|
                    source_ok(m, TokView::Word(b), src) && #[trigger] m[src].dom().contains(
                        TokView::Word(rest2[0]),
                    );
                assert(src2 == TokView::Word(b));
                assert(TokView::Word(rest2[0]) == TokView::Boundary);
                assert(false);
            }
        }
    }
}

} // verus!
