//! The shared backend capability, its error taxonomy, and an in-library
//! engine for offline use.
use vstd::prelude::*;
use crate::report::{last_lookup, rows_view, Perft};

verus! {

/// Why a query produced no report.
#[derive(Debug)]
pub enum QueryError {
    /// The backend process could not be reached: it is gone, or a pipe
    /// broke mid-query.
    Transport(String),
    /// The backend answered, but the response does not match the expected
    /// grammar.
    Protocol(String),
    /// The navigated path is already deeper than the target depth, so no
    /// relative depth exists to query at.
    DepthUnderflow,
}

impl QueryError {
    /// The human-readable cause, for the front end to report.
    pub fn message(&self) -> (r: String)
        ensures
            *self matches QueryError::Transport(m) ==> r@ == m@,
            *self matches QueryError::Protocol(m) ==> r@ == m@,
            *self is DepthUnderflow ==> r@
                == "navigated path is deeper than the target depth"@,
    {
        match self {
            QueryError::Transport(m) => m.clone(),
            QueryError::Protocol(m) => m.clone(),
            QueryError::DepthUnderflow => "navigated path is deeper than the target depth".to_owned(),
        }
    }
}

/// A backend able to answer perft queries: position descriptor, move path
/// and relative depth in, a report out. An empty move path queries the
/// base position directly.
pub trait Engine {
    /// Queries the backend once. Whatever the backend did, a successful
    /// answer is a well-formed report, and a failure is a transport or
    /// protocol failure: the depth-underflow error belongs to the
    /// navigation, never to a backend.
    fn perft(&mut self, fen: &str, moves: &Vec<String>, depth: usize) -> (r: Result<
        Perft,
        QueryError,
    >)
        ensures
            r matches Ok(p) ==> p.wf(),
            r matches Err(e) ==> !(e is DepthUnderflow),
    ;
}

/// An engine that answers every query with the same prepared table. The
/// process-backed engines live outside the library; sessions that need a
/// backend without a subprocess, tests above all, use this one.
pub struct FixedEngine {
    total_count: u128,
    child_count: Vec<(String, u128)>,
}

impl FixedEngine {
    /// The total count of the prepared answer.
    pub closed spec fn stored_total(&self) -> u128 {
        self.total_count
    }

    /// The rows of the prepared answer.
    pub closed spec fn stored_rows(&self) -> Seq<(Seq<char>, u128)> {
        rows_view(self.child_count@)
    }

    /// Prepares the one answer this engine will give.
    pub fn new(total_count: u128, child_count: Vec<(String, u128)>) -> (r: FixedEngine)
        ensures
            r.stored_total() == total_count,
            r.stored_rows() == rows_view(child_count@),
    {
        FixedEngine { total_count, child_count }
    }
}

impl Engine for FixedEngine {
    /// Answers with the prepared table, whatever the query asks: this
    /// engine never fails.
    fn perft(&mut self, fen: &str, moves: &Vec<String>, depth: usize) -> (r: Result<
        Perft,
        QueryError,
    >)
        ensures
            r is Ok,
            r matches Ok(p) ==> p.wf() && p.total() == old(self).stored_total() && forall|
                k: Seq<char>,
            | #[trigger] p.lookup_of(k) == last_lookup(old(self).stored_rows(), k),
    {
        let n = self.child_count.len();
        let mut rows: Vec<(String, u128)> = Vec::new();
        let mut i: usize = 0;
        while i < n
            invariant
                i <= n,
                n == self.child_count@.len(),
                self.child_count@ == old(self).child_count@,
                self.total_count == old(self).total_count,
                rows_view(rows@) == rows_view(old(self).child_count@).take(i as int),
            decreases n - i,
        {
            let key = self.child_count[i].0.clone();
            let val = self.child_count[i].1;
            let ghost prev = rows@;
            let ghost keyv = key@;
            rows.push((key, val));
            proof {
                let cc = old(self).child_count@;
                assert(rows_view(prev).len() == prev.len());
                assert(prev.len() == i as int);
                assert forall|m: int| 0 <= m < i + 1 implies #[trigger] rows_view(rows@)[m]
                    == rows_view(cc).take(i as int + 1)[m] by {
                    if m < i {
                        assert(rows@[m] == prev[m]);
                        assert(rows_view(prev)[m] == rows_view(cc).take(i as int)[m]);
                    } else {
                        assert(rows_view(rows@)[m].0 == keyv && rows_view(rows@)[m].1 == val);
                        assert(rows_view(cc).take(i as int + 1)[m] == (cc[m].0@, cc[m].1));
                        assert(keyv == cc[m].0@);
                    }
                }
                assert(rows_view(rows@) =~= rows_view(cc).take(i as int + 1));
            }
            i += 1;
        }
        proof {
            assert(rows_view(old(self).child_count@).take(n as int) =~= rows_view(
                old(self).child_count@,
            ));
        }
        Ok(Perft::new(self.total_count, rows))
    }
}

} // verus!
