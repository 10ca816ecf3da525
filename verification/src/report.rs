//! Perft reports.
//!
//! One backend's answer to one query: a total node count and a table from
//! move name to child node count. The table is kept strictly sorted by move
//! name, which makes its keys unique and its rendering order stable.
use vstd::prelude::*;
use crate::order::{lex_lt, lemma_lex_lt_trans, lemma_lex_lt_trichotomy, str_lt};

verus! {

/// The keys of `rows` are strictly increasing, hence unique.
pub open spec fn sorted_keys<T>(rows: Seq<(Seq<char>, T)>) -> bool {
    forall|i: int, j: int|
        0 <= i < j < rows.len() ==> lex_lt((#[trigger] rows[i]).0, (#[trigger] rows[j]).0)
}

/// The value of the first row carrying key `k`, searching from the front.
pub open spec fn lookup<T>(rows: Seq<(Seq<char>, T)>, k: Seq<char>) -> Option<T>
    decreases rows.len(),
{
    if rows.len() == 0 {
        None
    } else if rows[0].0 == k {
        Some(rows[0].1)
    } else {
        lookup(rows.drop_first(), k)
    }
}

/// The value of the last row carrying key `k`, searching from the back:
/// how repeated keys of an unsorted input read when later entries win.
pub open spec fn last_lookup<T>(rows: Seq<(Seq<char>, T)>, k: Seq<char>) -> Option<T>
    decreases rows.len(),
{
    if rows.len() == 0 {
        None
    } else if rows.last().0 == k {
        Some(rows.last().1)
    } else {
        last_lookup(rows.drop_last(), k)
    }
}

/// The view of a table of owned rows.
pub open spec fn rows_view(rows: Seq<(String, u128)>) -> Seq<(Seq<char>, u128)> {
    rows.map_values(|r: (String, u128)| (r.0@, r.1))
}

/// How appending a row changes the lookup of one key.
pub proof fn lemma_lookup_snoc_one<T>(rows: Seq<(Seq<char>, T)>, row: (Seq<char>, T), k: Seq<char>)
    ensures
        lookup(rows.push(row), k) == (if lookup(rows, k) is Some {
            lookup(rows, k)
        } else if row.0 == k {
            Some(row.1)
        } else {
            None
        }),
    decreases rows.len(),
{
    let p = rows.push(row);
    if rows.len() == 0 {
        assert(p[0] == row);
        assert(p.drop_first() =~= Seq::<(Seq<char>, T)>::empty());
        assert(lookup(rows, k) is None);
        if row.0 == k {
            assert(lookup(p, k) == Some(row.1));
        } else {
            assert(lookup(Seq::<(Seq<char>, T)>::empty(), k) is None);
            assert(lookup(p, k) is None);
        }
    } else {
        lemma_lookup_snoc_one(rows.drop_first(), row, k);
        assert(p[0] == rows[0]);
        assert(p.drop_first() =~= rows.drop_first().push(row));
        if rows[0].0 == k {
            assert(lookup(p, k) == Some(rows[0].1));
            assert(lookup(rows, k) == Some(rows[0].1));
        } else {
            assert(lookup(p, k) == lookup(rows.drop_first().push(row), k));
            assert(lookup(rows, k) == lookup(rows.drop_first(), k));
        }
    }
}

/// How appending a row changes every lookup.
pub proof fn lemma_lookup_snoc<T>(rows: Seq<(Seq<char>, T)>, row: (Seq<char>, T))
    ensures
        forall|k: Seq<char>| #[trigger]
            lookup(rows.push(row), k) == (if lookup(rows, k) is Some {
                lookup(rows, k)
            } else if row.0 == k {
                Some(row.1)
            } else {
                None
            }),
{
    assert forall|k: Seq<char>| true implies #[trigger] lookup(rows.push(row), k) == (if lookup(
        rows,
        k,
    ) is Some {
        lookup(rows, k)
    } else if row.0 == k {
        Some(row.1)
    } else {
        None
    }) by {
        lemma_lookup_snoc_one(rows, row, k);
    }
}

/// In a sorted table, looking up the key of row `i` finds row `i`.
pub proof fn lemma_lookup_at_index<T>(rows: Seq<(Seq<char>, T)>, i: int)
    requires
        sorted_keys(rows),
        0 <= i < rows.len(),
    ensures
        lookup(rows, rows[i].0) == Some(rows[i].1),
    decreases rows.len(),
{
    if i > 0 {
        lemma_lex_lt_trichotomy(rows[0].0, rows[i].0);
        assert(rows[0].0 != rows[i].0);
        assert(forall|a: int, b: int|
            0 <= a < b < rows.drop_first().len() ==> (#[trigger] rows.drop_first()[a],
            #[trigger] rows.drop_first()[b]) == (rows[a + 1], rows[b + 1]));
        lemma_lookup_at_index(rows.drop_first(), i - 1);
    }
}

/// A key carried by no row is found by no lookup.
pub proof fn lemma_lookup_absent<T>(rows: Seq<(Seq<char>, T)>, k: Seq<char>)
    requires
        forall|i: int| 0 <= i < rows.len() ==> (#[trigger] rows[i]).0 != k,
    ensures
        lookup(rows, k) is None,
    decreases rows.len(),
{
    if rows.len() > 0 {
        assert(rows[0].0 != k);
        assert(forall|i: int|
            0 <= i < rows.drop_first().len() ==> #[trigger] rows.drop_first()[i] == rows[i + 1]);
        lemma_lookup_absent(rows.drop_first(), k);
    }
}

/// A successful lookup names some row.
pub proof fn lemma_lookup_some<T>(rows: Seq<(Seq<char>, T)>, k: Seq<char>)
    requires
        lookup(rows, k) is Some,
    ensures
        exists|i: int| 0 <= i < rows.len() && (#[trigger] rows[i]).0 == k,
    decreases rows.len(),
{
    if rows.len() > 0 && rows[0].0 != k {
        assert(forall|i: int|
            0 <= i < rows.drop_first().len() ==> #[trigger] rows.drop_first()[i] == rows[i + 1]);
        lemma_lookup_some(rows.drop_first(), k);
        let w = choose|i: int|
            0 <= i < rows.drop_first().len() && (#[trigger] rows.drop_first()[i]).0 == k;
        assert(rows[w + 1].0 == k);
    }
}

/// Every key of a sorted table precedes a key beyond its last row.
pub proof fn lemma_sorted_below<T>(rows: Seq<(Seq<char>, T)>, key: Seq<char>)
    requires
        sorted_keys(rows),
        rows.len() > 0,
        lex_lt(rows.last().0, key),
    ensures
        forall|m: int| 0 <= m < rows.len() ==> lex_lt((#[trigger] rows[m]).0, key),
        forall|m: int| 0 <= m < rows.len() ==> (#[trigger] rows[m]).0 != key,
{
    assert forall|m: int| 0 <= m < rows.len() implies lex_lt((#[trigger] rows[m]).0, key)
        && rows[m].0 != key by {
        if m < rows.len() - 1 {
            assert(lex_lt(rows[m].0, rows[rows.len() - 1].0));
            lemma_lex_lt_trans(rows[m].0, rows[rows.len() - 1].0, key);
        }
        lemma_lex_lt_trichotomy(rows[m].0, key);
    }
}

/// Appending a row whose key exceeds all present keys keeps a table sorted.
pub proof fn lemma_sorted_push<T>(rows: Seq<(Seq<char>, T)>, row: (Seq<char>, T))
    requires
        sorted_keys(rows),
        forall|m: int| 0 <= m < rows.len() ==> lex_lt((#[trigger] rows[m]).0, row.0),
    ensures
        sorted_keys(rows.push(row)),
{
    let p = rows.push(row);
    assert forall|x: int, y: int| 0 <= x < y < p.len() implies lex_lt(
        (#[trigger] p[x]).0,
        (#[trigger] p[y]).0,
    ) by {
        assert(p[x] == rows[x]);
        if y == rows.len() {
            assert(p[y] == row);
        } else {
            assert(p[y] == rows[y]);
        }
    }
}

/// A report: total node count and per-move child node counts, the table
/// strictly sorted by move name.
pub struct Perft {
    total_count: u128,
    child_count: Vec<(String, u128)>,
}

impl Perft {
    /// The total node count.
    pub closed spec fn total(&self) -> u128 {
        self.total_count
    }

    /// The per-move table, as a sequence of (move, count) pairs.
    pub closed spec fn rows(&self) -> Seq<(Seq<char>, u128)> {
        rows_view(self.child_count@)
    }

    /// The count this report gives for the move `k`.
    pub open spec fn lookup_of(&self, k: Seq<char>) -> Option<u128> {
        lookup(self.rows(), k)
    }

    /// The table is strictly sorted, so each move occurs at most once.
    pub open spec fn wf(&self) -> bool {
        sorted_keys(self.rows())
    }

    /// Builds a report from a total count and any table of rows. Rows are
    /// entered in order, so of rows that repeat a move the last one wins,
    /// and the stored table comes out sorted by move.
    pub fn new(total_count: u128, child_count: Vec<(String, u128)>) -> (r: Perft)
        ensures
            r.wf(),
            r.total() == total_count,
            forall|k: Seq<char>| #[trigger]
                r.lookup_of(k) == last_lookup(rows_view(child_count@), k),
    {
        let mut rows: Vec<(String, u128)> = Vec::new();
        let n = child_count.len();
        let mut i: usize = 0;
        while i < n
            invariant
                i <= n,
                n == child_count@.len(),
                sorted_keys(rows_view(rows@)),
                forall|k: Seq<char>| #[trigger]
                    lookup(rows_view(rows@), k) == last_lookup(
                        rows_view(child_count@.take(i as int)),
                        k,
                    ),
            decreases n - i,
        {
            let key = child_count[i].0.clone();
            let val = child_count[i].1;
            insert_row(&mut rows, key, val);
            proof {
                assert(rows_view(child_count@.take(i as int + 1)).drop_last() =~= rows_view(
                    child_count@.take(i as int),
                ));
                assert(rows_view(child_count@.take(i as int + 1)).last() == (
                    child_count@[i as int].0@,
                    child_count@[i as int].1,
                ));
                assert(rows_view(child_count@.take(i as int + 1)).len() > 0);
            }
            i += 1;
        }
        proof {
            assert(child_count@.take(n as int) =~= child_count@);
        }
        Perft { total_count, child_count: rows }
    }

    /// The total node count.
    pub fn total_count(&self) -> (r: u128)
        ensures
            r == self.total(),
    {
        self.total_count
    }

    /// The per-move table, sorted by move name.
    pub fn child_count(&self) -> (r: &Vec<(String, u128)>)
        ensures
            rows_view(r@) == self.rows(),
    {
        &self.child_count
    }
}

/// Inserts `(key, val)` into a sorted table, replacing the row of an equal
/// key, so that exactly the lookup of `key` changes.
pub fn insert_row(rows: &mut Vec<(String, u128)>, key: String, val: u128)
    requires
        sorted_keys(rows_view(old(rows)@)),
    ensures
        sorted_keys(rows_view(final (rows)@)),
        forall|k: Seq<char>| #[trigger]
            lookup(rows_view(final (rows)@), k) == (if k == key@ {
                Some(val)
            } else {
                lookup(rows_view(old(rows)@), k)
            }),
{
    let ghost ov = rows_view(rows@);
    let n = rows.len();
    let mut i: usize = 0;
    while i < n && str_lt(rows[i].0.as_str(), key.as_str())
        invariant
            i <= n,
            n == rows@.len(),
            rows@ == old(rows)@,
            forall|j: int| 0 <= j < i ==> lex_lt((#[trigger] rows_view(rows@)[j]).0, key@),
        decreases n - i,
    {
        i += 1;
    }
    if i < n && rows[i].0 == key {
        // an equal key: replace its count
        rows.remove(i);
        rows.insert(i, (key, val));
        proof {
            let nv = rows_view(rows@);
            assert(nv.len() == ov.len());
            assert(forall|m: int| 0 <= m < ov.len() && m != i ==> #[trigger] nv[m] == ov[m]);
            assert(nv[i as int].0 == ov[i as int].0 && nv[i as int].1 == val);
            assert forall|a: int, b: int| 0 <= a < b < nv.len() implies lex_lt(
                (#[trigger] nv[a]).0,
                (#[trigger] nv[b]).0,
            ) by {
                assert(nv[a].0 == ov[a].0 && nv[b].0 == ov[b].0);
            }
            assert forall|k: Seq<char>| true implies #[trigger] lookup(nv, k) == (if k == key@ {
                Some(val)
            } else {
                lookup(ov, k)
            }) by {
                if k == key@ {
                    lemma_lookup_at_index(nv, i as int);
                } else {
                    if lookup(ov, k) is Some {
                        lemma_lookup_some(ov, k);
                        let m = choose|m: int| 0 <= m < ov.len() && (#[trigger] ov[m]).0 == k;
                        lemma_lookup_at_index(ov, m);
                        lemma_lookup_at_index(nv, m);
                    } else {
                        lemma_lookup_some_contra(ov, k);
                        lemma_lookup_absent(nv, k);
                    }
                }
            }
        }
    } else {
        proof {
            if i < n {
                lemma_lex_lt_trichotomy(rows_view(rows@)[i as int].0, key@);
            }
        }
        rows.insert(i, (key, val));
        proof {
            let nv = rows_view(rows@);
            assert(nv.len() == ov.len() + 1);
            assert(forall|m: int| 0 <= m < i ==> #[trigger] nv[m] == ov[m]);
            assert(nv[i as int] == (key@, val));
            assert(forall|m: int| i < m < nv.len() ==> #[trigger] nv[m] == ov[m - 1]);
            assert forall|a: int, b: int| 0 <= a < b < nv.len() implies lex_lt(
                (#[trigger] nv[a]).0,
                (#[trigger] nv[b]).0,
            ) by {
                if a == i {
                    // key@ precedes every row at or after the insertion point
                    if b - 1 > i {
                        lemma_lex_lt_trans(key@, ov[i as int].0, ov[b - 1].0);
                    }
                } else if b == i {
                    // rows before the insertion point precede key@
                } else if a < i && b > i {
                    if a == b - 1 {
                        assert(lex_lt(ov[a].0, key@) && lex_lt(key@, ov[b - 1].0));
                        assert(false);
                    }
                }
            }
            assert forall|k: Seq<char>| true implies #[trigger] lookup(nv, k) == (if k == key@ {
                Some(val)
            } else {
                lookup(ov, k)
            }) by {
                if k == key@ {
                    lemma_lookup_at_index(nv, i as int);
                } else {
                    if lookup(ov, k) is Some {
                        lemma_lookup_some(ov, k);
                        let m = choose|m: int| 0 <= m < ov.len() && (#[trigger] ov[m]).0 == k;
                        lemma_lookup_at_index(ov, m);
                        if m < i {
                            lemma_lookup_at_index(nv, m);
                        } else {
                            lemma_lookup_at_index(nv, m + 1);
                        }
                    } else {
                        lemma_lookup_some_contra(ov, k);
                        lemma_lookup_absent(nv, k);
                    }
                }
            }
        }
    }
}

/// Contrapositive convenience: a failed lookup means no row carries `k`.
proof fn lemma_lookup_some_contra<T>(rows: Seq<(Seq<char>, T)>, k: Seq<char>)
    requires
        lookup(rows, k) is None,
    ensures
        forall|i: int| 0 <= i < rows.len() ==> (#[trigger] rows[i]).0 != k,
{
    assert forall|i: int| 0 <= i < rows.len() implies (#[trigger] rows[i]).0 != k by {
        if rows[i].0 == k {
            lemma_lookup_at_index_free(rows, i, k);
        }
    }
}

/// Any row with key `k` makes the lookup of `k` succeed (no sortedness
/// needed).
proof fn lemma_lookup_at_index_free<T>(rows: Seq<(Seq<char>, T)>, i: int, k: Seq<char>)
    requires
        0 <= i < rows.len(),
        rows[i].0 == k,
    ensures
        lookup(rows, k) is Some,
    decreases rows.len(),
{
    if rows[0].0 != k {
        assert(forall|m: int|
            0 <= m < rows.drop_first().len() ==> #[trigger] rows.drop_first()[m] == rows[m + 1]);
        lemma_lookup_at_index_free(rows.drop_first(), i - 1, k);
    }
}

} // verus!
