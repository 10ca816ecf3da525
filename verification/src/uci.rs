//! The persistent reference-engine backend: request framing and response
//! parsing for its line-oriented conversation.
//!
//! The library states the exact request text of a query and parses the
//! response lines; the subprocess, its pipes and its teardown live outside
//! the library. A query writes three lines - the variant toggle, the
//! position, the search directive - and reads back `<move>: <count>` rows
//! up to a blank line, one total line, and one trailing line to discard.
use vstd::prelude::*;
use crate::engine::QueryError;
use crate::num::{dec_digits, parse_u128, push_decimal};
use crate::report::{last_lookup, rows_view, Perft};
use crate::script::{count_text_ok, count_text_val};
use crate::text::{
    colon_sep_idx, find_colon_sep, join_spaced, joined, lemma_colon_sep_props, trim, trim_spec,
    views_of,
};

verus! {

/// The text of a boolean in a directive.
pub open spec fn bool_text(b: bool) -> Seq<char> {
    if b {
        "true"@
    } else {
        "false"@
    }
}

/// The variant-toggle directive, resent before every query.
pub open spec fn setoption_line(chess960: bool) -> Seq<char> {
    "setoption name UCI_Chess960 value "@ + bool_text(chess960) + "\n"@
}

/// The position directive: the descriptor and, when the path is non-empty,
/// the moves joined by spaces.
pub open spec fn position_line(fen: Seq<char>, moves: Seq<Seq<char>>) -> Seq<char> {
    "position fen "@ + fen + (if moves.len() == 0 {
        Seq::<char>::empty()
    } else {
        " moves "@ + joined(moves)
    }) + "\n"@
}

/// The search directive carrying the relative depth.
pub open spec fn go_line(depth: nat) -> Seq<char> {
    "go perft "@ + dec_digits(depth) + "\n"@
}

/// The full request text of one query, in the order the engine reads it.
pub open spec fn request_text(
    chess960: bool,
    fen: Seq<char>,
    moves: Seq<Seq<char>>,
    depth: nat,
) -> Seq<char> {
    setoption_line(chess960) + position_line(fen, moves) + go_line(depth)
}

/// Builds the request text of one query.
pub fn query_request(chess960: bool, fen: &str, moves: &Vec<String>, depth: usize) -> (r: String)
    ensures
        r@ == request_text(chess960, fen@, views_of(moves@), depth as nat),
{
    let mut out = String::new();
    out.append("setoption name UCI_Chess960 value ");
    if chess960 {
        out.append("true");
    } else {
        out.append("false");
    }
    out.append("\n");
    out.append("position fen ");
    out.append(fen);
    if moves.len() > 0 {
        out.append(" moves ");
        let path = join_spaced(moves);
        out.append(path.as_str());
    }
    out.append("\n");
    out.append("go perft ");
    push_decimal(&mut out, depth as u64);
    out.append("\n");
    proof {
        assert(out@ =~= request_text(chess960, fen@, views_of(moves@), depth as nat));
    }
    out
}

/// A response row parses: after trimming, a `": "` separator with a
/// storable count after it. The move may be any text before the first
/// separator.
pub open spec fn engine_row_ok(l: Seq<char>) -> bool {
    let t = trim_spec(l);
    let i = colon_sep_idx(t);
    i >= 0 && count_text_ok(t.skip(i + 2))
}

/// The move of a response row.
pub open spec fn engine_row_key(l: Seq<char>) -> Seq<char> {
    trim_spec(l).take(colon_sep_idx(trim_spec(l)))
}

/// The count of a response row.
pub open spec fn engine_row_count(l: Seq<char>) -> u128 {
    count_text_val(trim_spec(l).skip(colon_sep_idx(trim_spec(l)) + 2))
}

/// The rows a block of response lines carries.
pub open spec fn engine_rows(ls: Seq<Seq<char>>) -> Seq<(Seq<char>, u128)> {
    ls.map_values(|l: Seq<char>| (engine_row_key(l), engine_row_count(l)))
}

/// Every line of the block parses as a row.
pub open spec fn engine_rows_ok(ls: Seq<Seq<char>>) -> bool {
    forall|m: int| 0 <= m < ls.len() ==> engine_row_ok(#[trigger] ls[m])
}

/// The total field of the trimmed total line: the text between the first
/// `": "` separator and the next one, or the end of the line.
pub open spec fn total_field(l: Seq<char>) -> Seq<char> {
    let t = trim_spec(l);
    let rest = t.skip(colon_sep_idx(t) + 2);
    if colon_sep_idx(rest) < 0 {
        rest
    } else {
        rest.take(colon_sep_idx(rest))
    }
}

/// The total line parses: a `": "` separator with a storable count in the
/// field after it.
pub open spec fn total_line_ok(l: Seq<char>) -> bool {
    colon_sep_idx(trim_spec(l)) >= 0 && count_text_ok(total_field(l))
}

/// The total the line carries.
pub open spec fn total_line_val(l: Seq<char>) -> u128 {
    count_text_val(total_field(l))
}

/// Whether a response line is blank once trimmed: the row block ends here.
pub fn is_blank_line(s: &str) -> (r: bool)
    ensures
        r == (trim_spec(s@).len() == 0),
{
    trim(s).is_empty()
}

/// Parses one response: the row lines read up to the blank separator, and
/// the total line after it.
pub fn parse_engine_response(rows: &Vec<String>, total_line: &str) -> (r: Result<
    Perft,
    QueryError,
>)
    ensures
        engine_rows_ok(views_of(rows@)) && total_line_ok(total_line@) ==> (r matches Ok(p)
            && p.wf() && p.total() == total_line_val(total_line@) && forall|k: Seq<char>|
            #[trigger] p.lookup_of(k) == last_lookup(engine_rows(views_of(rows@)), k)),
        !(engine_rows_ok(views_of(rows@)) && total_line_ok(total_line@)) ==> (r matches Err(e)
            && e is Protocol),
{
    let ghost lv = views_of(rows@);
    let n = rows.len();
    let mut table: Vec<(String, u128)> = Vec::new();
    let mut i: usize = 0;
    proof {
        assert(rows_view(table@) =~= engine_rows(lv.take(0)));
    }
    while i < n
        invariant
            i <= n,
            n == rows@.len(),
            lv == views_of(rows@),
            forall|m: int| 0 <= m < i ==> engine_row_ok(#[trigger] lv[m]),
            rows_view(table@) == engine_rows(lv.take(i as int)),
        decreases n - i,
    {
        let t = trim(rows[i].as_str());
        let ci = match find_colon_sep(t) {
            Some(c) => c,
            None => {
                proof {
                    assert(!engine_row_ok(lv[i as int]));
                }
                return Err(
                    QueryError::Protocol("expected a move, a colon and a count".to_owned()),
                );
            },
        };
        proof {
            lemma_colon_sep_props(t@);
        }
        let tlen = t.unicode_len();
        let mv = t.substring_char(0, ci).to_owned();
        let cnt = t.substring_char(ci + 2, tlen);
        proof {
            assert(mv@ =~= engine_row_key(lv[i as int]));
            assert(cnt@ =~= trim_spec(lv[i as int]).skip(ci + 2));
        }
        let count = match parse_u128(cnt) {
            Some(c) => c,
            None => {
                proof {
                    assert(!engine_row_ok(lv[i as int]));
                }
                return Err(
                    QueryError::Protocol("the count of a move row is not a number".to_owned()),
                );
            },
        };
        let ghost prev = table@;
        let ghost keyv = mv@;
        table.push((mv, count));
        proof {
            assert(engine_row_ok(lv[i as int]));
            assert(prev.len() == i as int) by {
                assert(rows_view(prev).len() == prev.len());
            }
            assert forall|m: int| 0 <= m < i + 1 implies #[trigger] rows_view(table@)[m]
                == engine_rows(lv.take(i as int + 1))[m] by {
                if m < i {
                    assert(table@[m] == prev[m]);
                    assert(rows_view(prev)[m] == engine_rows(lv.take(i as int))[m]);
                } else {
                    assert(rows_view(table@)[m].0 == keyv && rows_view(table@)[m].1 == count);
                    assert(engine_rows(lv.take(i as int + 1))[m] == (
                        engine_row_key(lv[i as int]),
                        engine_row_count(lv[i as int]),
                    ));
                }
            }
            assert(rows_view(table@) =~= engine_rows(lv.take(i as int + 1)));
        }
        i += 1;
    }
    proof {
        assert(lv.take(n as int) =~= lv);
    }
    // the total line: the field after the first separator, up to a second
    // separator if one follows
    let t = trim(total_line);
    let ci = match find_colon_sep(t) {
        Some(c) => c,
        None => {
            proof {
                assert(!total_line_ok(total_line@));
            }
            return Err(QueryError::Protocol("the total line carries no separator".to_owned()));
        },
    };
    proof {
        lemma_colon_sep_props(t@);
    }
    let tlen = t.unicode_len();
    let rest = t.substring_char(ci + 2, tlen);
    proof {
        assert(rest@ =~= trim_spec(total_line@).skip(ci + 2));
    }
    let field = match find_colon_sep(rest) {
        Some(cj) => {
            proof {
                lemma_colon_sep_props(rest@);
            }
            rest.substring_char(0, cj)
        },
        None => rest,
    };
    proof {
        assert(field@ =~= total_field(total_line@));
    }
    let total = match parse_u128(field) {
        Some(v) => v,
        None => {
            proof {
                assert(!total_line_ok(total_line@));
            }
            return Err(QueryError::Protocol("the total of the response is not a number".to_owned()));
        },
    };
    Ok(Perft::new(total, table))
}

} // verus!
