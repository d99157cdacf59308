use vstd::prelude::*;

use crate::token::{Token, TokView};

verus! {

// ---------------------------------------------------------------------------
// Mathematical model: an association list of (key, value) pairs, read as a
// map from the key's view to a function of the value.  The table is such a
// list of rows; each row's value is itself an association list of counts.
// ---------------------------------------------------------------------------

/// The map described by an association list: later entries override
/// earlier ones (well-formed lists have distinct keys, so nothing is
/// overridden in practice).
pub open spec fn assoc_map<V, W>(s: Seq<(Token, V)>, f: spec_fn(V) -> W) -> Map<TokView, W>
    decreases s.len(),
{
    if s.len() == 0 {
        Map::empty()
    } else {
        assoc_map(s.drop_last(), f).insert(s.last().0@, f(s.last().1))
    }
}

/// All keys of the association list are distinct.
pub open spec fn assoc_distinct<V>(s: Seq<(Token, V)>) -> bool {
    forall|i: int, j: int| 0 <= i < j < s.len() ==> s[i].0@ != s[j].0@
}

/// The counts stored in one row, as a map from destination token to count.
pub open spec fn pairs_map(cells: Seq<(Token, u32)>) -> Map<TokView, u32> {
    assoc_map(cells, |c: u32| c)
}

/// The whole table, as a map from source token to its row of counts.
pub open spec fn rows_map(rows: Seq<(Token, Vec<(Token, u32)>)>) -> Map<TokView, Map<TokView, u32>> {
    assoc_map(rows, |cells: Vec<(Token, u32)>| pairs_map(cells@))
}

/// A stored row is well formed: distinct destinations, every count at
/// least one (a missing destination means count zero, never stored).
pub open spec fn cells_wf(cells: Seq<(Token, u32)>) -> bool {
    &&& assoc_distinct(cells)
    &&& forall|i: int| 0 <= i < cells.len() ==> cells[i].1 >= 1
}

/// The stored table is well formed: distinct sources, every row well
/// formed and non-empty.
pub open spec fn rows_wf(rows: Seq<(Token, Vec<(Token, u32)>)>) -> bool {
    &&& assoc_distinct(rows)
    &&& forall|i: int| 0 <= i < rows.len() ==> cells_wf(#[trigger] rows[i].1@) && rows[i].1@.len() >= 1
}

/// Well-formedness of a row seen abstractly.
pub open spec fn row_wf_map(row: Map<TokView, u32>) -> bool {
    &&& row.dom().finite()
    &&& exists|t: TokView| row.dom().contains(t)
    &&& forall|t: TokView| #[trigger] row.dom().contains(t) ==> row[t] >= 1
}

/// Well-formedness of a table seen abstractly: finitely many known
/// sources, each with a non-empty row of positive counts.
pub open spec fn table_wf(m: Map<TokView, Map<TokView, u32>>) -> bool {
    &&& m.dom().finite()
    &&& forall|s: TokView| #[trigger] m.dom().contains(s) ==> row_wf_map(m[s])
}

/// One observation of the adjacency (a, b): the count stored under b in
/// a's row goes up by one, saturating at `u32::MAX`; absent entries count
/// as zero.
pub open spec fn spec_count(m: Map<TokView, Map<TokView, u32>>, a: TokView, b: TokView) -> Map<
    TokView,
    Map<TokView, u32>,
> {
    let row = if m.dom().contains(a) {
        m[a]
    } else {
        Map::empty()
    };
    let c: u32 = if row.dom().contains(b) {
        row[b]
    } else {
        0u32
    };
    let c2: u32 = if c < u32::MAX {
        (c + 1) as u32
    } else {
        c
    };
    m.insert(a, row.insert(b, c2))
}

// ---------------------------------------------------------------------------
// Lemmas about association lists.
// ---------------------------------------------------------------------------

proof fn lemma_assoc_push<V, W>(s: Seq<(Token, V)>, f: spec_fn(V) -> W, p: (Token, V))
    ensures
        assoc_map(s.push(p), f) == assoc_map(s, f).insert(p.0@, f(p.1)),
{
    assert(s.push(p).drop_last() =~= s);
    assert(s.push(p).last() == p);
}

proof fn lemma_assoc_contains<V, W>(s: Seq<(Token, V)>, f: spec_fn(V) -> W, i: int)
    requires
        0 <= i < s.len(),
    ensures
        assoc_map(s, f).dom().contains(s[i].0@),
    decreases s.len(),
{
    if i < s.len() - 1 {
        lemma_assoc_contains(s.drop_last(), f, i);
        assert(s.drop_last()[i] == s[i]);
    }
}

proof fn lemma_assoc_mem<V, W>(s: Seq<(Token, V)>, f: spec_fn(V) -> W, k: TokView)
    requires
        assoc_map(s, f).dom().contains(k),
    ensures
        exists|i: int| 0 <= i < s.len() && #[trigger] s[i].0@ == k,
    decreases s.len(),
{
    if s.len() == 0 {
    } else if s.last().0@ == k {
        assert(s[s.len() - 1].0@ == k);
    } else {
        lemma_assoc_mem(s.drop_last(), f, k);
        let i = choose|i: int| 0 <= i < s.drop_last().len() && #[trigger] s.drop_last()[i].0@ == k;
        assert(s[i].0@ == k);
    }
}

proof fn lemma_assoc_distinct_drop_last<V>(s: Seq<(Token, V)>)
    requires
        assoc_distinct(s),
        s.len() > 0,
    ensures
        assoc_distinct(s.drop_last()),
{
    assert forall|i: int, j: int| 0 <= i < j < s.drop_last().len() implies s.drop_last()[i].0@
        != s.drop_last()[j].0@ by {
        assert(s.drop_last()[i] == s[i]);
        assert(s.drop_last()[j] == s[j]);
    }
}

proof fn lemma_assoc_get<V, W>(s: Seq<(Token, V)>, f: spec_fn(V) -> W, i: int)
    requires
        assoc_distinct(s),
        0 <= i < s.len(),
    ensures
        assoc_map(s, f).dom().contains(s[i].0@),
        assoc_map(s, f)[s[i].0@] == f(s[i].1),
    decreases s.len(),
{
    lemma_assoc_contains(s, f, i);
    if i < s.len() - 1 {
        lemma_assoc_distinct_drop_last(s);
        lemma_assoc_get(s.drop_last(), f, i);
        assert(s.drop_last()[i] == s[i]);
        assert(s[i].0@ != s.last().0@);
    }
}

/// Combination of the two lookups: a key in the map comes from a unique
/// list entry, and the map's value is that entry's value.
proof fn lemma_assoc_lookup<V, W>(s: Seq<(Token, V)>, f: spec_fn(V) -> W, k: TokView)
    requires
        assoc_distinct(s),
        assoc_map(s, f).dom().contains(k),
    ensures
        exists|i: int|
            0 <= i < s.len() && #[trigger] s[i].0@ == k && assoc_map(s, f)[k] == f(s[i].1),
{
    lemma_assoc_mem(s, f, k);
    let i = choose|i: int| 0 <= i < s.len() && #[trigger] s[i].0@ == k;
    lemma_assoc_get(s, f, i);
}

proof fn lemma_assoc_remove<V, W>(s: Seq<(Token, V)>, f: spec_fn(V) -> W, i: int)
    requires
        assoc_distinct(s),
        0 <= i < s.len(),
    ensures
        assoc_map(s.remove(i), f) =~= assoc_map(s, f).remove(s[i].0@),
        assoc_distinct(s.remove(i)),
    decreases s.len(),
{
    assert forall|a: int, b: int| 0 <= a < b < s.remove(i).len() implies s.remove(i)[a].0@
        != s.remove(i)[b].0@ by {
        assert(s.remove(i)[a] == if a < i {
            s[a]
        } else {
            s[a + 1]
        });
        assert(s.remove(i)[b] == if b < i {
            s[b]
        } else {
            s[b + 1]
        });
    }
    if i == s.len() - 1 {
        assert(s.remove(i) =~= s.drop_last());
        if assoc_map(s.drop_last(), f).dom().contains(s[i].0@) {
            lemma_assoc_mem(s.drop_last(), f, s[i].0@);
            let j = choose|j: int|
                0 <= j < s.drop_last().len() && #[trigger] s.drop_last()[j].0@ == s[i].0@;
            assert(s[j].0@ == s[i].0@);
            assert(false);
        }
    } else {
        lemma_assoc_distinct_drop_last(s);
        lemma_assoc_remove(s.drop_last(), f, i);
        assert(s.remove(i).drop_last() =~= s.drop_last().remove(i));
        assert(s.remove(i).last() == s.last());
        assert(s.drop_last()[i] == s[i]);
        assert(s[i].0@ != s.last().0@);
    }
}

proof fn lemma_rows_wf_table(rows: Seq<(Token, Vec<(Token, u32)>)>)
    requires
        rows_wf(rows),
    ensures
        table_wf(rows_map(rows)),
{
    let f = |cells: Vec<(Token, u32)>| pairs_map(cells@);
    lemma_assoc_finite(rows, f);
    assert forall|src: TokView| #[trigger] rows_map(rows).dom().contains(src) implies row_wf_map(
        rows_map(rows)[src],
    ) by {
        lemma_assoc_lookup(rows, f, src);
        let i = choose|i: int|
            0 <= i < rows.len() && #[trigger] rows[i].0@ == src && rows_map(rows)[src] == f(
                rows[i].1,
            );
        let cells = rows[i].1@;
        let g = |c: u32| c;
        lemma_assoc_finite(cells, g);
        lemma_assoc_contains(cells, g, 0);
        assert forall|t: TokView| #[trigger] pairs_map(cells).dom().contains(t) implies pairs_map(
            cells,
        )[t] >= 1 by {
            lemma_assoc_lookup(cells, g, t);
        }
    }
}

proof fn lemma_assoc_finite<V, W>(s: Seq<(Token, V)>, f: spec_fn(V) -> W)
    ensures
        assoc_map(s, f).dom().finite(),
    decreases s.len(),
{
    if s.len() > 0 {
        lemma_assoc_finite(s.drop_last(), f);
    }
}

/// Each stored cell of a well-formed row is faithfully reflected in the
/// row's abstract map: its destination is a known key and its count is
/// the map's value there.
pub proof fn lemma_row_entries(cells: Seq<(Token, u32)>)
    requires
        cells_wf(cells),
    ensures
        forall|i: int|
            0 <= i < cells.len() ==> pairs_map(cells).dom().contains(#[trigger] cells[i].0@)
                && pairs_map(cells)[cells[i].0@] == cells[i].1,
{
    let g = |c: u32| c;
    assert forall|i: int| 0 <= i < cells.len() implies pairs_map(cells).dom().contains(
        #[trigger] cells[i].0@,
    ) && pairs_map(cells)[cells[i].0@] == cells[i].1 by {
        lemma_assoc_get(cells, g, i);
    }
}

// ---------------------------------------------------------------------------
// The transition table itself.
// ---------------------------------------------------------------------------

/// Token transition training container: counts observed adjacencies
/// between tokens of a training corpus.
#[derive(Debug)]
pub struct Transitions {
    transitions: Vec<(Token, Vec<(Token, u32)>)>,
}

impl View for Transitions {
    type V = Map<TokView, Map<TokView, u32>>;

    closed spec fn view(&self) -> Map<TokView, Map<TokView, u32>> {
        rows_map(self.transitions@)
    }
}

impl Transitions {
    /// Internal well-formedness: distinct sources, distinct destinations
    /// per source, all stored counts at least one.
    pub closed spec fn wf(&self) -> bool {
        rows_wf(self.transitions@)
    }

    /// A well-formed table is well formed when seen abstractly.
    pub proof fn lemma_table_wf(&self)
        requires
            self.wf(),
        ensures
            table_wf(self@),
    {
        lemma_rows_wf_table(self.transitions@);
    }

    /// Construct a new, empty `Transitions` container.
    pub fn new() -> (r: Transitions)
        ensures
            r@ == Map::<TokView, Map<TokView, u32>>::empty(),
            r.wf(),
    {
        Transitions { transitions: Vec::new() }
    }

    /// Index of the row whose source token is `t`, if one exists.
    fn find_row(&self, t: &Token) -> (r: Option<usize>)
        ensures
            match r {
                Some(i) => 0 <= i < self.transitions@.len() && self.transitions@[i as int].0@
                    == t@,
                None => !self@.dom().contains(t@),
            },
    {
        let n = self.transitions.len();
        let mut i: usize = 0;
        while i < n
            invariant
                n == self.transitions@.len(),
                0 <= i <= n,
                forall|j: int| 0 <= j < i ==> self.transitions@[j].0@ != t@,
            decreases n - i,
        {
            if self.transitions[i].0.eq(t) {
                return Some(i);
            }
            i += 1;
        }
        proof {
            if self@.dom().contains(t@) {
                let f = |cells: Vec<(Token, u32)>| pairs_map(cells@);
                lemma_assoc_mem(self.transitions@, f, t@);
            }
        }
        None
    }

    /// Add one observation of the adjacency from `last_token` to
    /// `next_token` to the training data.
    pub fn count_transition(&mut self, last_token: &Token, next_token: &Token)
        requires
            old(self).wf(),
        ensures
            final(self).wf(),
            final(self)@ == spec_count(old(self)@, last_token@, next_token@),
    {
        let ghost f = |cells: Vec<(Token, u32)>| pairs_map(cells@);
        let ghost g = |c: u32| c;
        let ghost old_rows = self.transitions@;
        let idx_opt = self.find_row(last_token);
        match idx_opt {
            Some(i) => {
                proof {
                    lemma_assoc_get(old_rows, f, i as int);
                    lemma_assoc_remove(old_rows, f, i as int);
                }
                let mut row = self.transitions.remove(i);
                let ghost old_cells = row.1@;
                let j_opt = find_cell(&row.1, next_token);
                match j_opt {
                    Some(j) => {
                        proof {
                            lemma_assoc_get(old_cells, g, j as int);
                            lemma_assoc_remove(old_cells, g, j as int);
                        }
                        let cell = row.1.remove(j);
                        let c2: u32 = if cell.1 < u32::MAX {
                            cell.1 + 1
                        } else {
                            cell.1
                        };
                        row.1.push((cell.0, c2));
                        proof {
                            lemma_assoc_push(old_cells.remove(j as int), g, (cell.0, c2));
                            assert(pairs_map(row.1@) =~= pairs_map(old_cells).insert(
                                next_token@,
                                c2,
                            ));
                            assert forall|a: int, b: int|
                                0 <= a < b < row.1@.len() implies row.1@[a].0@
                                != row.1@[b].0@ by {
                                let rm = old_cells.remove(j as int);
                                if b < row.1@.len() - 1 {
                                    assert(row.1@[a] == rm[a]);
                                    assert(row.1@[b] == rm[b]);
                                } else {
                                    assert(row.1@[a] == rm[a]);
                                    assert(row.1@[b].0@ == old_cells[j as int].0@);
                                    assert(rm[a] == if a < j as int {
                                        old_cells[a]
                                    } else {
                                        old_cells[a + 1]
                                    });
                                }
                            }
                        }
                    },
                    None => {
                        row.1.push((next_token.clone(), 1));
                        proof {
                            lemma_assoc_push(old_cells, g, (row.1@.last().0, 1));
                            assert(pairs_map(row.1@) =~= pairs_map(old_cells).insert(
                                next_token@,
                                1u32,
                            ));
                            assert forall|a: int, b: int|
                                0 <= a < b < row.1@.len() implies row.1@[a].0@
                                != row.1@[b].0@ by {
                                if b == row.1@.len() - 1 {
                                    lemma_assoc_contains(old_cells, g, a);
                                }
                            }
                        }
                    },
                }
                let ghost mid_rows = self.transitions@;
                self.transitions.push(row);
                proof {
                    lemma_assoc_push(mid_rows, f, row);
                    assert(mid_rows == old_rows.remove(i as int));
                    assert(self@ =~~= spec_count(rows_map(old_rows), last_token@, next_token@));
                    assert forall|a: int, b: int|
                        0 <= a < b < self.transitions@.len() implies self.transitions@[a].0@
                        != self.transitions@[b].0@ by {
                        if b == self.transitions@.len() - 1 {
                            assert(self.transitions@[a] == old_rows.remove(i as int)[a]);
                            assert(old_rows.remove(i as int)[a] == if a < i as int {
                                old_rows[a]
                            } else {
                                old_rows[a + 1]
                            });
                        } else {
                            assert(self.transitions@[a] == old_rows.remove(i as int)[a]);
                            assert(self.transitions@[b] == old_rows.remove(i as int)[b]);
                        }
                    }
                }
            },
            None => {
                let mut cells: Vec<(Token, u32)> = Vec::new();
                cells.push((next_token.clone(), 1));
                let ghost cells_view = cells@;
                self.transitions.push((last_token.clone(), cells));
                proof {
                    assert(cells_view =~= Seq::<(Token, u32)>::empty().push(cells_view.last()));
                    lemma_assoc_push(Seq::<(Token, u32)>::empty(), g, cells_view.last());
                    assert(assoc_map(Seq::<(Token, u32)>::empty(), g) =~= Map::<TokView, u32>::empty());
                    assert(pairs_map(cells_view) =~= Map::<TokView, u32>::empty().insert(
                        next_token@,
                        1u32,
                    ));
                    lemma_assoc_push(old_rows, f, (self.transitions@.last().0, self.transitions@.last().1));
                    assert(self.transitions@.drop_last() =~= old_rows);
                    assert(self@ =~~= spec_count(rows_map(old_rows), last_token@, next_token@));
                    assert forall|a: int, b: int|
                        0 <= a < b < self.transitions@.len() implies self.transitions@[a].0@
                        != self.transitions@[b].0@ by {
                        if b == self.transitions@.len() - 1 {
                            lemma_assoc_contains(old_rows, f, a);
                            assert(self.transitions@[a] == old_rows[a]);
                        }
                    }
                }
            },
        }
    }

    /// All known source tokens.  The result lists each key of the table
    /// exactly once, in storage order.
    pub fn last_tokens(&self) -> (r: Vec<Token>)
        requires
            self.wf(),
        ensures
            forall|i: int| 0 <= i < r@.len() ==> self@.dom().contains(#[trigger] r@[i]@),
            forall|k: TokView|
                self@.dom().contains(k) ==> exists|i: int|
                    0 <= i < r@.len() && #[trigger] r@[i]@ == k,
            forall|i: int, j: int| 0 <= i < j < r@.len() ==> r@[i]@ != r@[j]@,
    {
        let ghost f = |cells: Vec<(Token, u32)>| pairs_map(cells@);
        let n = self.transitions.len();
        let mut r: Vec<Token> = Vec::new();
        let mut i: usize = 0;
        while i < n
            invariant
                n == self.transitions@.len(),
                0 <= i <= n,
                r@.len() == i,
                forall|j: int| 0 <= j < i ==> r@[j]@ == self.transitions@[j].0@,
            decreases n - i,
        {
            r.push(self.transitions[i].0.clone());
            i += 1;
        }
        proof {
            assert forall|i2: int| 0 <= i2 < r@.len() implies self@.dom().contains(
                #[trigger] r@[i2]@,
            ) by {
                lemma_assoc_contains(self.transitions@, f, i2);
            }
            assert forall|k: TokView| self@.dom().contains(k) implies exists|i2: int|
                0 <= i2 < r@.len() && #[trigger] r@[i2]@ == k by {
                lemma_assoc_mem(self.transitions@, f, k);
                let i2 = choose|i2: int|
                    0 <= i2 < self.transitions@.len() && #[trigger] self.transitions@[i2].0@ == k;
                assert(r@[i2]@ == k);
            }
        }
        r
    }

    /// The row of outgoing transition counts observed from `last_token`,
    /// or `None` if that token was never seen as a source.
    pub fn next_tokens<'a>(&'a self, last_token: &Token) -> (r: Option<&'a Vec<(Token, u32)>>)
        requires
            self.wf(),
        ensures
            match r {
                Some(cells) => {
                    &&& self@.dom().contains(last_token@)
                    &&& pairs_map(cells@) == self@[last_token@]
                    &&& cells_wf(cells@)
                    &&& cells@.len() >= 1
                },
                None => !self@.dom().contains(last_token@),
            },
    {
        let ghost f = |cells: Vec<(Token, u32)>| pairs_map(cells@);
        match self.find_row(last_token) {
            Some(i) => {
                proof {
                    lemma_assoc_get(self.transitions@, f, i as int);
                }
                Some(&self.transitions[i].1)
            },
            None => None,
        }
    }

    /// The row of transition counts observed from the boundary token, the
    /// chain's start marker, if any was recorded.
    pub fn start_tokens<'a>(&'a self) -> (r: Option<&'a Vec<(Token, u32)>>)
        requires
            self.wf(),
        ensures
            match r {
                Some(cells) => {
                    &&& self@.dom().contains(TokView::Boundary)
                    &&& pairs_map(cells@) == self@[TokView::Boundary]
                    &&& cells_wf(cells@)
                    &&& cells@.len() >= 1
                },
                None => !self@.dom().contains(TokView::Boundary),
            },
    {
        self.next_tokens(&Token::Boundary)
    }
}

/// Index of the cell whose destination token is `t`, if one exists.
fn find_cell(cells: &Vec<(Token, u32)>, t: &Token) -> (r: Option<usize>)
    ensures
        match r {
            Some(j) => 0 <= j < cells@.len() && cells@[j as int].0@ == t@,
            None => !pairs_map(cells@).dom().contains(t@),
        },
{
    let n = cells.len();
    let mut j: usize = 0;
    while j < n
        invariant
            n == cells@.len(),
            0 <= j <= n,
            forall|x: int| 0 <= x < j ==> cells@[x].0@ != t@,
        decreases n - j,
    {
        if cells[j].0.eq(t) {
            return Some(j);
        }
        j += 1;
    }
    proof {
        if pairs_map(cells@).dom().contains(t@) {
            let g = |c: u32| c;
            lemma_assoc_mem(cells@, g, t@);
        }
    }
    None
}

} // verus!
