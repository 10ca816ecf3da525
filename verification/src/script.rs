//! The one-shot script backend: a fresh process per query.
//!
//! The library states which arguments a query passes to the script and
//! parses the captured standard output; spawning the process and capturing
//! its streams happen outside the library.
//!
//! Output grammar, line-oriented: zero or more `<move> <count>` rows, a
//! blank line, then the total count on a line of its own. Anything after
//! the total line is ignored.
use vstd::prelude::*;
use crate::engine::QueryError;
use crate::num::{all_digits, dec_digits, dec_string, dec_val, parse_u128};
use crate::report::{last_lookup, rows_view, Perft};
use crate::text::{after_token, first_token, join_spaced, joined, split_two_tokens, views_of};

verus! {

/// The command name of the script under test.
pub struct Script {
    cmd: String,
}

impl Script {
    /// The command name.
    pub closed spec fn cmd_spec(&self) -> Seq<char> {
        self.cmd@
    }

    /// Remembers the command name of the script under test.
    pub fn new(cmd: String) -> (r: Script)
        ensures
            r.cmd_spec() == cmd@,
    {
        Script { cmd }
    }

    /// The command name, for whoever spawns the process.
    pub fn cmd(&self) -> (r: &str)
        ensures
            r@ == self.cmd_spec(),
    {
        self.cmd.as_str()
    }
}

/// A decimal count as the protocols carry it: non-empty, all digits, and
/// small enough to store.
pub open spec fn count_text_ok(c: Seq<char>) -> bool {
    c.len() > 0 && all_digits(c) && dec_val(c) <= u128::MAX
}

/// The number a count text carries.
pub open spec fn count_text_val(c: Seq<char>) -> u128 {
    dec_val(c) as u128
}

/// A script output row parses: a move token, a count token, the count a
/// storable number. Tokens beyond the second are ignored.
pub open spec fn script_row_ok(l: Seq<char>) -> bool {
    first_token(l).len() > 0 && count_text_ok(first_token(after_token(l)))
}

/// The move of a script output row.
pub open spec fn script_row_key(l: Seq<char>) -> Seq<char> {
    first_token(l)
}

/// The count of a script output row.
pub open spec fn script_row_count(l: Seq<char>) -> u128 {
    count_text_val(first_token(after_token(l)))
}

/// The rows that a block of script output lines carries.
pub open spec fn script_rows(ls: Seq<Seq<char>>) -> Seq<(Seq<char>, u128)> {
    ls.map_values(|l: Seq<char>| (script_row_key(l), script_row_count(l)))
}

/// Index of the first empty line, or `-1` when there is none.
pub open spec fn first_blank(ls: Seq<Seq<char>>) -> int
    decreases ls.len(),
{
    if ls.len() == 0 {
        -1
    } else if ls[0].len() == 0 {
        0
    } else if first_blank(ls.drop_first()) < 0 {
        -1
    } else {
        1 + first_blank(ls.drop_first())
    }
}

/// What the first-blank index says of the lines before and at it.
pub proof fn lemma_first_blank_props(ls: Seq<Seq<char>>)
    ensures
        first_blank(ls) >= 0 ==> {
            let b = first_blank(ls);
            b < ls.len() && ls[b].len() == 0
        },
        first_blank(ls) >= -1,
    decreases ls.len(),
{
    if ls.len() > 0 && ls[0].len() != 0 {
        lemma_first_blank_props(ls.drop_first());
    }
}

/// The earliest empty line is the first-blank index.
pub proof fn lemma_first_blank_at(ls: Seq<Seq<char>>, i: int)
    requires
        0 <= i < ls.len(),
        ls[i].len() == 0,
        forall|m: int| 0 <= m < i ==> (#[trigger] ls[m]).len() > 0,
    ensures
        first_blank(ls) == i,
    decreases ls.len(),
{
    if i > 0 {
        assert(forall|m: int|
            0 <= m < ls.drop_first().len() ==> #[trigger] ls.drop_first()[m] == ls[m + 1]);
        lemma_first_blank_at(ls.drop_first(), i - 1);
    }
}

/// Without an empty line the first-blank index is `-1`.
pub proof fn lemma_first_blank_none(ls: Seq<Seq<char>>)
    requires
        forall|m: int| 0 <= m < ls.len() ==> (#[trigger] ls[m]).len() > 0,
    ensures
        first_blank(ls) == -1,
    decreases ls.len(),
{
    if ls.len() > 0 {
        assert(forall|m: int|
            0 <= m < ls.drop_first().len() ==> #[trigger] ls.drop_first()[m] == ls[m + 1]);
        lemma_first_blank_none(ls.drop_first());
    }
}

/// The whole captured output parses: some rows, a blank separator, and a
/// numeric total line after it.
pub open spec fn script_output_ok(lv: Seq<Seq<char>>) -> bool {
    let b = first_blank(lv);
    &&& b >= 0
    &&& forall|m: int| 0 <= m < b ==> script_row_ok(#[trigger] lv[m])
    &&& b + 1 < lv.len()
    &&& count_text_ok(lv[b + 1])
}

/// The total count the output carries.
pub open spec fn script_total(lv: Seq<Seq<char>>) -> u128 {
    count_text_val(lv[first_blank(lv) + 1])
}

/// The row table the output carries, in output order.
pub open spec fn script_row_table(lv: Seq<Seq<char>>) -> Seq<(Seq<char>, u128)> {
    script_rows(lv.take(first_blank(lv)))
}

/// The positional arguments of one script query: the relative depth, the
/// position descriptor, and, only when the path is non-empty, the path
/// joined by spaces.
pub fn query_args(fen: &str, moves: &Vec<String>, depth: usize) -> (r: Vec<String>)
    ensures
        moves@.len() == 0 ==> r@.len() == 2,
        moves@.len() > 0 ==> r@.len() == 3 && r@[2]@ == joined(views_of(moves@)),
        r@[0]@ == dec_digits(depth as nat),
        r@[1]@ == fen@,
{
    let mut args: Vec<String> = Vec::new();
    args.push(dec_string(depth as u64));
    args.push(fen.to_owned());
    if moves.len() > 0 {
        args.push(join_spaced(moves));
    }
    args
}

/// Parses the captured standard output of one script query, line by line.
pub fn parse_script_output(lines: &Vec<String>) -> (r: Result<Perft, QueryError>)
    ensures
        script_output_ok(views_of(lines@)) ==> (r matches Ok(p) && p.wf() && p.total()
            == script_total(views_of(lines@)) && forall|k: Seq<char>| #[trigger]
            p.lookup_of(k) == last_lookup(script_row_table(views_of(lines@)), k)),
        !script_output_ok(views_of(lines@)) ==> (r matches Err(e) && e is Protocol),
{
    let ghost lv = views_of(lines@);
    let n = lines.len();
    let mut rows: Vec<(String, u128)> = Vec::new();
    let mut i: usize = 0;
    proof {
        assert(rows_view(rows@) =~= script_rows(lv.take(0)));
    }
    while i < n && !lines[i].as_str().is_empty()
        invariant
            i <= n,
            n == lines@.len(),
            lv == views_of(lines@),
            forall|m: int| 0 <= m < i ==> (#[trigger] lv[m]).len() > 0,
            forall|m: int| 0 <= m < i ==> script_row_ok(#[trigger] lv[m]),
            rows_view(rows@) == script_rows(lv.take(i as int)),
        decreases n - i,
    {
        let parts = match split_two_tokens(lines[i].as_str()) {
            Some(p) => p,
            None => {
                proof {
                    lemma_output_bad_row(lv, i as int);
                }
                return Err(
                    QueryError::Protocol(
                        "expected a move and a count separated by spaces".to_owned(),
                    ),
                );
            },
        };
        let count = match parse_u128(parts.1.as_str()) {
            Some(c) => c,
            None => {
                proof {
                    lemma_output_bad_row(lv, i as int);
                }
                return Err(
                    QueryError::Protocol("the count of a move row is not a number".to_owned()),
                );
            },
        };
        let ghost prev = rows@;
        let ghost keyv = parts.0@;
        rows.push((parts.0, count));
        proof {
            assert(script_row_ok(lv[i as int]));
            assert(prev.len() == i as int) by {
                assert(rows_view(prev).len() == prev.len());
            }
            assert forall|m: int| 0 <= m < i + 1 implies #[trigger] rows_view(rows@)[m]
                == script_rows(lv.take(i as int + 1))[m] by {
                if m < i {
                    assert(rows@[m] == prev[m]);
                    assert(rows_view(prev)[m] == script_rows(lv.take(i as int))[m]);
                } else {
                    assert(rows_view(rows@)[m].0 == keyv && rows_view(rows@)[m].1 == count);
                    assert(script_rows(lv.take(i as int + 1))[m] == (
                        script_row_key(lv[i as int]),
                        script_row_count(lv[i as int]),
                    ));
                }
            }
            assert(rows_view(rows@) =~= script_rows(lv.take(i as int + 1)));
        }
        i += 1;
    }
    if i >= n {
        // the stream ended before the blank separator
        proof {
            lemma_first_blank_none(lv);
        }
        return Err(
            QueryError::Protocol("output ended before the blank separator line".to_owned()),
        );
    }
    proof {
        lemma_first_blank_at(lv, i as int);
    }
    if i + 1 >= n {
        // no line remains to carry the total
        return Err(QueryError::Protocol("output ended before the total line".to_owned()));
    }
    let total = match parse_u128(lines[i + 1].as_str()) {
        Some(t) => t,
        None => {
            return Err(QueryError::Protocol("the total line is not a number".to_owned()));
        },
    };
    proof {
        assert(script_output_ok(lv));
        assert(lv.take(first_blank(lv)) == lv.take(i as int));
    }
    Ok(Perft::new(total, rows))
}

/// A row before any blank line that does not parse spoils the output.
proof fn lemma_output_bad_row(lv: Seq<Seq<char>>, i: int)
    requires
        0 <= i < lv.len(),
        forall|m: int| 0 <= m < i ==> (#[trigger] lv[m]).len() > 0,
        lv[i].len() > 0,
        !script_row_ok(lv[i]),
    ensures
        !script_output_ok(lv),
{
    if script_output_ok(lv) {
        let b = first_blank(lv);
        lemma_first_blank_props(lv);
        if b <= i {
            assert(lv[b].len() == 0);
            assert(lv[b].len() > 0);
        } else {
            assert(script_row_ok(lv[i]));
        }
    }
}

} // verus!
