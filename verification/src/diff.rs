//! Merging two perft reports into one comparison table.
//!
//! For every move named by either report the merged table records the pair
//! of optional counts, `None` standing for a side that did not report the
//! move. Totals are copied verbatim from the two reports, never recomputed
//! from the rows.
use vstd::prelude::*;
use crate::num::{column_width, width_of};
use crate::order::{lex_lt, lemma_lex_lt_trichotomy, str_lt};
use crate::report::{
    lemma_lookup_absent, lemma_lookup_at_index, lemma_lookup_snoc, lemma_sorted_below,
    lemma_sorted_push, lookup, rows_view, sorted_keys, Perft,
};

verus! {

/// The view of a table of owned diff rows.
pub open spec fn diff_rows_view(rows: Seq<(String, (Option<u128>, Option<u128>))>) -> Seq<
    (Seq<char>, (Option<u128>, Option<u128>)),
> {
    rows.map_values(|r: (String, (Option<u128>, Option<u128>))| (r.0@, r.1))
}

/// How one move's counts from the two reports appear in the merged table:
/// absent from both means no row; otherwise the pair, with `None` on the
/// side that lacks the move.
pub open spec fn merge_pair(a: Option<u128>, b: Option<u128>) -> Option<
    (Option<u128>, Option<u128>),
> {
    if a is None && b is None {
        None
    } else {
        Some((a, b))
    }
}

/// The comparison of two reports: the pair of totals and, per move, the
/// pair of optional counts, sorted by move name.
pub struct Diff {
    total_count: (u128, u128),
    child_count: Vec<(String, (Option<u128>, Option<u128>))>,
}

/// `d` is the merge of reports `a` and `b`: its rows cover exactly the
/// union of the two move sets, each move mapped to the pair of the sides'
/// counts, and its totals are the two reports' totals verbatim.
pub open spec fn merged_from(d: Diff, a: Perft, b: Perft) -> bool {
    &&& d.totals() == (a.total(), b.total())
    &&& forall|k: Seq<char>| #[trigger] d.lookup_of(k) == merge_pair(a.lookup_of(k), b.lookup_of(k))
}

impl Diff {
    /// The pair of total counts, first report first.
    pub closed spec fn totals(&self) -> (u128, u128) {
        self.total_count
    }

    /// The merged table, as a sequence of (move, pair of counts) rows.
    pub closed spec fn rows(&self) -> Seq<(Seq<char>, (Option<u128>, Option<u128>))> {
        diff_rows_view(self.child_count@)
    }

    /// The pair of counts this diff holds for the move `k`.
    pub open spec fn lookup_of(&self, k: Seq<char>) -> Option<(Option<u128>, Option<u128>)> {
        lookup(self.rows(), k)
    }

    /// The table is strictly sorted, so each move occurs at most once.
    pub open spec fn wf(&self) -> bool {
        sorted_keys(self.rows())
    }

    /// Merges two reports.
    pub fn new(lhs: &Perft, rhs: &Perft) -> (r: Diff)
        requires
            lhs.wf(),
            rhs.wf(),
        ensures
            r.wf(),
            merged_from(r, *lhs, *rhs),
    {
        let a = lhs.child_count();
        let b = rhs.child_count();
        let ghost av = lhs.rows();
        let ghost bv = rhs.rows();
        let an = a.len();
        let bn = b.len();
        let mut out: Vec<(String, (Option<u128>, Option<u128>))> = Vec::new();
        let mut i: usize = 0;
        let mut j: usize = 0;
        proof {
            assert(diff_rows_view(out@) =~= Seq::<
                (Seq<char>, (Option<u128>, Option<u128>)),
            >::empty());
            assert(av.take(0) =~= Seq::<(Seq<char>, u128)>::empty());
            assert(bv.take(0) =~= Seq::<(Seq<char>, u128)>::empty());
            assert forall|k: Seq<char>| true implies #[trigger] lookup(diff_rows_view(out@), k)
                == merge_pair(lookup(av.take(0), k), lookup(bv.take(0), k)) by {
                assert(lookup(diff_rows_view(out@), k) is None);
                assert(lookup(av.take(0), k) is None);
                assert(lookup(bv.take(0), k) is None);
            }
        }
        while i < an || j < bn
            invariant
                i <= an,
                j <= bn,
                an == a@.len(),
                bn == b@.len(),
                av == rows_view(a@),
                bv == rows_view(b@),
                sorted_keys(av),
                sorted_keys(bv),
                sorted_keys(diff_rows_view(out@)),
                forall|k: Seq<char>| #[trigger]
                    lookup(diff_rows_view(out@), k) == merge_pair(
                        lookup(av.take(i as int), k),
                        lookup(bv.take(j as int), k),
                    ),
                out@.len() > 0 && i < an ==> lex_lt(
                    diff_rows_view(out@).last().0,
                    av[i as int].0,
                ),
                out@.len() > 0 && j < bn ==> lex_lt(
                    diff_rows_view(out@).last().0,
                    bv[j as int].0,
                ),
            decreases an - i + bn - j,
        {
            let ghost ov = diff_rows_view(out@);
            if j >= bn || (i < an && str_lt(a[i].0.as_str(), b[j].0.as_str())) {
                // the smallest remaining move comes from the first report only
                let ghost keyv = av[i as int].0;
                let ghost rowv = (keyv, (Some(av[i as int].1), None::<u128>));
                let key = a[i].0.clone();
                let val = a[i].1;
                proof {
                    merge_step_facts(ov, keyv);
                    assert(lookup(av.take(i as int), keyv) is None && lookup(
                        bv.take(j as int),
                        keyv,
                    ) is None);
                    lemma_lookup_snoc(ov, rowv);
                    lemma_lookup_snoc(av.take(i as int), av[i as int]);
                    assert(av.take(i as int).push(av[i as int]) =~= av.take(i as int + 1));
                    lemma_sorted_push(ov, rowv);
                }
                out.push((key, (Some(val), None)));
                i += 1;
                proof {
                    assert(diff_rows_view(out@) =~= ov.push(rowv));
                    assert forall|k: Seq<char>| true implies #[trigger] lookup(
                        diff_rows_view(out@),
                        k,
                    ) == merge_pair(lookup(av.take(i as int), k), lookup(bv.take(j as int), k)) by {
                        assert(lookup(ov.push(rowv), k) == lookup(diff_rows_view(out@), k));
                        assert(lookup(av.take(i as int), k) == lookup(
                            av.take(i as int - 1).push(av[i as int - 1]),
                            k,
                        ));
                    }
                    assert(diff_rows_view(out@).last() == rowv);
                    if i < an {
                        assert(lex_lt(av[i as int - 1].0, av[i as int].0));
                    }
                }
            } else if i >= an || (j < bn && str_lt(b[j].0.as_str(), a[i].0.as_str())) {
                // the smallest remaining move comes from the second report only
                let ghost keyv = bv[j as int].0;
                let ghost rowv = (keyv, (None::<u128>, Some(bv[j as int].1)));
                let key = b[j].0.clone();
                let val = b[j].1;
                proof {
                    merge_step_facts(ov, keyv);
                    assert(lookup(av.take(i as int), keyv) is None && lookup(
                        bv.take(j as int),
                        keyv,
                    ) is None);
                    lemma_lookup_snoc(ov, rowv);
                    lemma_lookup_snoc(bv.take(j as int), bv[j as int]);
                    assert(bv.take(j as int).push(bv[j as int]) =~= bv.take(j as int + 1));
                    lemma_sorted_push(ov, rowv);
                }
                out.push((key, (None, Some(val))));
                j += 1;
                proof {
                    assert(diff_rows_view(out@) =~= ov.push(rowv));
                    assert forall|k: Seq<char>| true implies #[trigger] lookup(
                        diff_rows_view(out@),
                        k,
                    ) == merge_pair(lookup(av.take(i as int), k), lookup(bv.take(j as int), k)) by {
                        assert(lookup(ov.push(rowv), k) == lookup(diff_rows_view(out@), k));
                        assert(lookup(bv.take(j as int), k) == lookup(
                            bv.take(j as int - 1).push(bv[j as int - 1]),
                            k,
                        ));
                    }
                    assert(diff_rows_view(out@).last() == rowv);
                    if j < bn {
                        assert(lex_lt(bv[j as int - 1].0, bv[j as int].0));
                    }
                }
            } else {
                // both reports name the move: record the two counts side by side
                let ghost keyv = av[i as int].0;
                proof {
                    lemma_lex_lt_trichotomy(av[i as int].0, bv[j as int].0);
                    assert(bv[j as int].0 == keyv);
                }
                let ghost rowv = (keyv, (Some(av[i as int].1), Some(bv[j as int].1)));
                let key = a[i].0.clone();
                let va = a[i].1;
                let vb = b[j].1;
                proof {
                    merge_step_facts(ov, keyv);
                    assert(lookup(av.take(i as int), keyv) is None && lookup(
                        bv.take(j as int),
                        keyv,
                    ) is None);
                    lemma_lookup_snoc(ov, rowv);
                    lemma_lookup_snoc(av.take(i as int), av[i as int]);
                    assert(av.take(i as int).push(av[i as int]) =~= av.take(i as int + 1));
                    lemma_lookup_snoc(bv.take(j as int), bv[j as int]);
                    assert(bv.take(j as int).push(bv[j as int]) =~= bv.take(j as int + 1));
                    lemma_sorted_push(ov, rowv);
                }
                out.push((key, (Some(va), Some(vb))));
                i += 1;
                j += 1;
                proof {
                    assert(diff_rows_view(out@) =~= ov.push(rowv));
                    assert forall|k: Seq<char>| true implies #[trigger] lookup(
                        diff_rows_view(out@),
                        k,
                    ) == merge_pair(lookup(av.take(i as int), k), lookup(bv.take(j as int), k)) by {
                        assert(lookup(ov.push(rowv), k) == lookup(diff_rows_view(out@), k));
                        assert(lookup(av.take(i as int), k) == lookup(
                            av.take(i as int - 1).push(av[i as int - 1]),
                            k,
                        ));
                        assert(lookup(bv.take(j as int), k) == lookup(
                            bv.take(j as int - 1).push(bv[j as int - 1]),
                            k,
                        ));
                    }
                    assert(diff_rows_view(out@).last() == rowv);
                    if i < an {
                        assert(lex_lt(av[i as int - 1].0, av[i as int].0));
                    }
                    if j < bn {
                        assert(lex_lt(bv[j as int - 1].0, bv[j as int].0));
                    }
                }
            }
        }
        proof {
            assert(av.take(an as int) =~= av);
            assert(bv.take(bn as int) =~= bv);
        }
        Diff { total_count: (lhs.total_count(), rhs.total_count()), child_count: out }
    }

    /// The pair of total counts.
    pub fn total_count(&self) -> (r: (u128, u128))
        ensures
            r == self.totals(),
    {
        self.total_count
    }

    /// The merged table, sorted by move name.
    pub fn child_count(&self) -> (r: &Vec<(String, (Option<u128>, Option<u128>))>)
        ensures
            diff_rows_view(r@) == self.rows(),
    {
        &self.child_count
    }

    /// The two totals disagree, so the total row is to be emphasized.
    pub fn totals_differ(&self) -> (r: bool)
        ensures
            r == (self.totals().0 != self.totals().1),
    {
        self.total_count.0 != self.total_count.1
    }

    /// The widest column any count of this diff needs: zero when no count
    /// needs one.
    pub fn min_width(&self) -> (r: usize)
        ensures
            forall|m: int|
                0 <= m < self.rows().len() ==> pair_width((#[trigger] self.rows()[m]).1) <= r,
            r == 0 || exists|m: int|
                0 <= m < self.rows().len() && pair_width((#[trigger] self.rows()[m]).1) == r,
    {
        let n = self.child_count.len();
        let mut best: usize = 0;
        let mut m: usize = 0;
        while m < n
            invariant
                m <= n,
                n == self.child_count@.len(),
                forall|x: int| 0 <= x < m ==> pair_width((#[trigger] self.rows()[x]).1) <= best,
                best == 0 || exists|x: int|
                    0 <= x < m && pair_width((#[trigger] self.rows()[x]).1) == best,
            decreases n - m,
        {
            let w = match self.child_count[m].1.0 {
                Some(v) => column_width(v),
                None => 0,
            };
            let w2 = match self.child_count[m].1.1 {
                Some(v) => column_width(v),
                None => 0,
            };
            let wrow = if w2 > w {
                w2
            } else {
                w
            };
            proof {
                assert(self.rows()[m as int].1 == self.child_count@[m as int].1);
                assert(pair_width(self.rows()[m as int].1) == wrow);
            }
            if wrow > best {
                best = wrow;
            }
            m += 1;
        }
        best
    }
}

/// The column width a pair of optional counts needs.
pub open spec fn pair_width(p: (Option<u128>, Option<u128>)) -> nat {
    let wa = opt_width(p.0);
    let wb = opt_width(p.1);
    if wb > wa {
        wb
    } else {
        wa
    }
}

/// The column width an optional count needs; a missing count needs none.
pub open spec fn opt_width(o: Option<u128>) -> nat {
    match o {
        Some(v) => width_of(v as nat),
        None => 0,
    }
}

/// The two sides of a row disagree, so the row is to be emphasized.
pub fn counts_differ(lhs: &Option<u128>, rhs: &Option<u128>) -> (r: bool)
    ensures
        r == (*lhs != *rhs),
{
    match (lhs, rhs) {
        (None, None) => false,
        (Some(x), Some(y)) => *x != *y,
        _ => true,
    }
}

/// What the merge equation says move by move: the merged table knows a
/// move exactly when either report does, and then pairs the first
/// report's count with the second's, verbatim.
pub proof fn lemma_merge_row_correct(a: Perft, b: Perft, d: Diff, k: Seq<char>)
    requires
        merged_from(d, a, b),
    ensures
        d.lookup_of(k) is Some <==> (a.lookup_of(k) is Some || b.lookup_of(k) is Some),
        d.lookup_of(k) matches Some(p) ==> p.0 == a.lookup_of(k) && p.1 == b.lookup_of(k),
{
    assert(d.lookup_of(k) == merge_pair(a.lookup_of(k), b.lookup_of(k)));
}

/// Merging a report with itself: the two totals agree and no row's two
/// sides differ.
pub proof fn lemma_merge_with_self(a: Perft, d: Diff)
    requires
        d.wf(),
        merged_from(d, a, a),
    ensures
        d.totals().0 == d.totals().1,
        forall|m: int|
            0 <= m < d.rows().len() ==> (#[trigger] d.rows()[m]).1.0 == d.rows()[m].1.1,
{
    assert forall|m: int| 0 <= m < d.rows().len() implies (#[trigger] d.rows()[m]).1.0
        == d.rows()[m].1.1 by {
        lemma_lookup_at_index(d.rows(), m);
        let k = d.rows()[m].0;
        assert(d.lookup_of(k) == merge_pair(a.lookup_of(k), a.lookup_of(k)));
    }
}

/// In the merge the smallest remaining move `keyv` exceeds every move
/// already written, so the output does not know it yet.
proof fn merge_step_facts(ov: Seq<(Seq<char>, (Option<u128>, Option<u128>))>, keyv: Seq<char>)
    requires
        sorted_keys(ov),
        ov.len() > 0 ==> lex_lt(ov.last().0, keyv),
    ensures
        forall|m: int| 0 <= m < ov.len() ==> lex_lt((#[trigger] ov[m]).0, keyv),
        lookup(ov, keyv) is None,
{
    if ov.len() > 0 {
        lemma_sorted_below(ov, keyv);
    }
    lemma_lookup_absent(ov, keyv);
}

} // verus!
