//! Line-level text handling shared by the two backend protocols:
//! whitespace runs, token extraction, trimming, the `": "` separator of the
//! reference protocol, and joining a move path with spaces.
use vstd::prelude::*;

verus! {

/// The whitespace characters recognised when lines are split and trimmed.
pub open spec fn is_ws_char(c: char) -> bool {
    c == ' ' || c == '\t' || c == '\r' || c == '\n'
}

/// Executable mirror of `is_ws_char`.
pub fn is_ws(c: char) -> (r: bool)
    ensures
        r == is_ws_char(c),
{
    c == ' ' || c == '\t' || c == '\r' || c == '\n'
}

/// Length of the whitespace run at the front of `s`.
pub open spec fn ws_prefix_len(s: Seq<char>) -> nat
    decreases s.len(),
{
    if s.len() > 0 && is_ws_char(s[0]) {
        1 + ws_prefix_len(s.drop_first())
    } else {
        0
    }
}

/// Length of the non-whitespace run at the front of `s`.
pub open spec fn token_prefix_len(s: Seq<char>) -> nat
    decreases s.len(),
{
    if s.len() > 0 && !is_ws_char(s[0]) {
        1 + token_prefix_len(s.drop_first())
    } else {
        0
    }
}

/// Length of the whitespace run at the back of `s`.
pub open spec fn ws_suffix_len(s: Seq<char>) -> nat
    decreases s.len(),
{
    if s.len() > 0 && is_ws_char(s.last()) {
        1 + ws_suffix_len(s.drop_last())
    } else {
        0
    }
}

/// The first whitespace-delimited token of `s` (empty if there is none).
pub open spec fn first_token(s: Seq<char>) -> Seq<char> {
    let w = ws_prefix_len(s) as int;
    let t = token_prefix_len(s.skip(w)) as int;
    s.skip(w).take(t)
}

/// What remains of `s` after its first token.
pub open spec fn after_token(s: Seq<char>) -> Seq<char> {
    let w = ws_prefix_len(s) as int;
    let t = token_prefix_len(s.skip(w)) as int;
    s.skip(w).skip(t)
}

/// `s` without leading and trailing whitespace.
pub open spec fn trim_spec(s: Seq<char>) -> Seq<char> {
    let t = s.skip(ws_prefix_len(s) as int);
    t.take(t.len() - ws_suffix_len(t))
}

/// The views of a sequence of strings.
pub open spec fn views_of(ss: Seq<String>) -> Seq<Seq<char>> {
    ss.map_values(|s: String| s@)
}

/// A whitespace run of length `w` at the front, ended by the end of the
/// string or a non-whitespace character, is exactly the whitespace prefix.
pub proof fn lemma_ws_prefix_ident(t: Seq<char>, w: int)
    requires
        0 <= w <= t.len(),
        forall|j: int| 0 <= j < w ==> is_ws_char(t[j]),
        w == t.len() || !is_ws_char(t[w]),
    ensures
        ws_prefix_len(t) == w,
    decreases t.len(),
{
    if t.len() == 0 {
    } else if is_ws_char(t[0]) {
        assert(w != 0);
        lemma_ws_prefix_ident(t.drop_first(), w - 1);
    } else {
        assert(w == 0);
    }
}

/// The matching identification for a non-whitespace run.
pub proof fn lemma_token_prefix_ident(t: Seq<char>, w: int)
    requires
        0 <= w <= t.len(),
        forall|j: int| 0 <= j < w ==> !is_ws_char(t[j]),
        w == t.len() || is_ws_char(t[w]),
    ensures
        token_prefix_len(t) == w,
    decreases t.len(),
{
    if t.len() == 0 {
    } else if !is_ws_char(t[0]) {
        assert(w != 0);
        lemma_token_prefix_ident(t.drop_first(), w - 1);
    } else {
        assert(w == 0);
    }
}

/// A whitespace run from position `e` to the end, preceded by the start of
/// the string or a non-whitespace character, is exactly the whitespace
/// suffix.
pub proof fn lemma_ws_suffix_ident(t: Seq<char>, e: int)
    requires
        0 <= e <= t.len(),
        forall|j: int| e <= j < t.len() ==> is_ws_char(t[j]),
        e == 0 || !is_ws_char(t[e - 1]),
    ensures
        ws_suffix_len(t) == t.len() - e,
    decreases t.len(),
{
    if t.len() == 0 {
    } else if is_ws_char(t.last()) {
        assert(e != t.len());
        lemma_ws_suffix_ident(t.drop_last(), e);
    } else {
        assert(e == t.len());
    }
}

/// First index after `from` that leaves the whitespace run starting there.
pub fn scan_ws(s: &str, from: usize) -> (r: usize)
    requires
        (from as int) <= s@.len(),
    ensures
        from <= r,
        (r as int) <= s@.len(),
        forall|j: int| from <= j < r ==> is_ws_char(s@[j]),
        (r as int) < s@.len() ==> !is_ws_char(s@[r as int]),
{
    let n = s.unicode_len();
    let mut i = from;
    while i < n && is_ws(s.get_char(i))
        invariant
            from <= i <= n,
            n == s@.len(),
            forall|j: int| from <= j < i ==> is_ws_char(s@[j]),
        decreases n - i,
    {
        i += 1;
    }
    i
}

/// First index after `from` that leaves the token starting there.
pub fn scan_token(s: &str, from: usize) -> (r: usize)
    requires
        (from as int) <= s@.len(),
    ensures
        from <= r,
        (r as int) <= s@.len(),
        forall|j: int| from <= j < r ==> !is_ws_char(s@[j]),
        (r as int) < s@.len() ==> is_ws_char(s@[r as int]),
{
    let n = s.unicode_len();
    let mut i = from;
    while i < n && !is_ws(s.get_char(i))
        invariant
            from <= i <= n,
            n == s@.len(),
            forall|j: int| from <= j < i ==> !is_ws_char(s@[j]),
        decreases n - i,
    {
        i += 1;
    }
    i
}

/// Splits a line into its first two whitespace-delimited tokens; anything
/// further on the line is ignored. `None` when fewer than two tokens exist.
pub fn split_two_tokens(s: &str) -> (r: Option<(String, String)>)
    ensures
        r matches Some(p) ==> p.0@ == first_token(s@) && p.1@ == first_token(after_token(s@))
            && first_token(s@).len() > 0 && first_token(after_token(s@)).len() > 0,
        r is None ==> first_token(s@).len() == 0 || first_token(after_token(s@)).len() == 0,
{
    let n = s.unicode_len();
    let w0 = scan_ws(s, 0);
    let t0 = scan_token(s, w0);
    proof {
        assert(s@.skip(0) =~= s@);
        lemma_ws_prefix_ident(s@, w0 as int);
        let u = s@.skip(w0 as int);
        assert(forall|j: int| 0 <= j < t0 - w0 ==> u[j] == s@[w0 + j]);
        lemma_token_prefix_ident(u, t0 as int - w0 as int);
    }
    if t0 == w0 {
        // no first token
        assert(first_token(s@).len() == 0);
        return None;
    }
    let w1 = scan_ws(s, t0);
    let t1 = scan_token(s, w1);
    proof {
        let rest = after_token(s@);
        assert(rest =~= s@.skip(t0 as int));
        let v = rest.skip(w1 as int - t0 as int);
        assert(forall|j: int| 0 <= j < rest.len() ==> rest[j] == s@[t0 + j]);
        lemma_ws_prefix_ident(rest, w1 as int - t0 as int);
        assert(forall|j: int| 0 <= j < v.len() ==> v[j] == s@[w1 + j]);
        lemma_token_prefix_ident(v, t1 as int - w1 as int);
    }
    if t1 == w1 {
        assert(first_token(after_token(s@)).len() == 0);
        return None;
    }
    let mv = s.substring_char(w0, t0).to_owned();
    let cnt = s.substring_char(w1, t1).to_owned();
    proof {
        assert(mv@ =~= first_token(s@));
        assert(cnt@ =~= first_token(after_token(s@)));
    }
    Some((mv, cnt))
}

/// `s` with leading and trailing whitespace removed.
pub fn trim(s: &str) -> (r: &str)
    ensures
        r@ == trim_spec(s@),
{
    let n = s.unicode_len();
    let start = scan_ws(s, 0);
    let mut end = n;
    while end > start && is_ws(s.get_char(end - 1))
        invariant
            start <= end <= n,
            n == s@.len(),
            forall|j: int| end <= j < n ==> is_ws_char(s@[j]),
        decreases end,
    {
        end -= 1;
    }
    proof {
        assert(s@.skip(0) =~= s@);
        lemma_ws_prefix_ident(s@, start as int);
        let t = s@.skip(start as int);
        assert(forall|j: int| 0 <= j < t.len() ==> t[j] == s@[start + j]);
        lemma_ws_suffix_ident(t, end as int - start as int);
    }
    let r = s.substring_char(start, end);
    proof {
        assert(r@ =~= trim_spec(s@));
    }
    r
}

/// Index of the first `": "` separator of `s`, or `-1` when there is none.
pub open spec fn colon_sep_idx(s: Seq<char>) -> int
    decreases s.len(),
{
    if s.len() < 2 {
        -1
    } else if s[0] == ':' && s[1] == ' ' {
        0
    } else if colon_sep_idx(s.drop_first()) < 0 {
        -1
    } else {
        1 + colon_sep_idx(s.drop_first())
    }
}

/// What a non-negative separator index says about the characters of `s`.
pub proof fn lemma_colon_sep_props(s: Seq<char>)
    ensures
        colon_sep_idx(s) >= 0 ==> {
            let i = colon_sep_idx(s);
            0 <= i && i + 1 < s.len() && s[i] == ':' && s[i + 1] == ' '
        },
        colon_sep_idx(s) >= -1,
    decreases s.len(),
{
    if s.len() >= 2 && !(s[0] == ':' && s[1] == ' ') {
        lemma_colon_sep_props(s.drop_first());
    }
}

/// When no position carries the separator, the index is `-1`.
pub proof fn lemma_colon_sep_none(s: Seq<char>)
    requires
        forall|m: int| 0 <= m && m + 1 < s.len() ==> !((#[trigger] s[m]) == ':' && s[m + 1] == ' '),
    ensures
        colon_sep_idx(s) == -1,
    decreases s.len(),
{
    if s.len() >= 2 {
        assert(!(s[0] == ':' && s[1] == ' '));
        assert(forall|m: int|
            0 <= m && m + 1 < s.drop_first().len() ==> (#[trigger] s.drop_first()[m]) == s[m + 1]
                && s.drop_first()[m + 1] == s[m + 2]);
        lemma_colon_sep_none(s.drop_first());
    }
}

/// The earliest position carrying the separator is the index.
pub proof fn lemma_colon_sep_at(s: Seq<char>, i: int)
    requires
        0 <= i,
        i + 1 < s.len(),
        s[i] == ':',
        s[i + 1] == ' ',
        forall|m: int| 0 <= m < i ==> !((#[trigger] s[m]) == ':' && s[m + 1] == ' '),
    ensures
        colon_sep_idx(s) == i,
    decreases s.len(),
{
    if i == 0 {
    } else {
        assert(forall|m: int|
            0 <= m < s.drop_first().len() - 1 ==> (#[trigger] s.drop_first()[m]) == s[m + 1]
                && s.drop_first()[m + 1] == s[m + 2]);
        lemma_colon_sep_at(s.drop_first(), i - 1);
    }
}

/// Finds the first `": "` separator of `s`.
pub fn find_colon_sep(s: &str) -> (r: Option<usize>)
    ensures
        r matches Some(i) ==> i as int == colon_sep_idx(s@),
        r is None ==> colon_sep_idx(s@) == -1,
{
    let n = s.unicode_len();
    if n < 2 {
        return None;
    }
    let mut i: usize = 0;
    while i + 1 < n
        invariant
            i + 1 <= n,
            n == s@.len(),
            forall|m: int| 0 <= m < i ==> !((#[trigger] s@[m]) == ':' && s@[m + 1] == ' '),
        decreases n - i,
    {
        if s.get_char(i) == ':' && s.get_char(i + 1) == ' ' {
            proof {
                lemma_colon_sep_at(s@, i as int);
            }
            return Some(i);
        }
        i += 1;
    }
    proof {
        lemma_colon_sep_none(s@);
    }
    None
}

/// The moves of a path joined by single spaces.
pub open spec fn joined(ms: Seq<Seq<char>>) -> Seq<char>
    decreases ms.len(),
{
    if ms.len() == 0 {
        Seq::empty()
    } else if ms.len() == 1 {
        ms[0]
    } else {
        ms[0] + seq![' '] + joined(ms.drop_first())
    }
}

/// Joining one more move appends a space and the move.
pub proof fn lemma_joined_push(ms: Seq<Seq<char>>, m: Seq<char>)
    ensures
        ms.len() == 0 ==> joined(ms.push(m)) == m,
        ms.len() > 0 ==> joined(ms.push(m)) == joined(ms) + seq![' '] + m,
    decreases ms.len(),
{
    let p = ms.push(m);
    if ms.len() == 0 {
        assert(p[0] == m);
    } else if ms.len() == 1 {
        assert(p.drop_first() =~= ms.drop_first().push(m));
        assert(ms.drop_first().push(m) =~= seq![m]);
        assert(joined(seq![m]) == m);
        assert(p[0] == ms[0]);
    } else {
        lemma_joined_push(ms.drop_first(), m);
        assert(p.drop_first() =~= ms.drop_first().push(m));
        assert(p[0] == ms[0]);
        assert(ms[0] + seq![' '] + (joined(ms.drop_first()) + seq![' '] + m) =~= (ms[0]
            + seq![' '] + joined(ms.drop_first())) + seq![' '] + m);
    }
}

/// Joins the strings of `items` with single spaces.
pub fn join_spaced(items: &Vec<String>) -> (r: String)
    ensures
        r@ == joined(views_of(items@)),
{
    let mut out = String::new();
    let mut i: usize = 0;
    while i < items.len()
        invariant
            i <= items@.len(),
            out@ == joined(views_of(items@).take(i as int)),
        decreases items@.len() - i,
    {
        proof {
            lemma_joined_push(views_of(items@).take(i as int), items@[i as int]@);
            assert(views_of(items@).take(i as int).push(items@[i as int]@) =~= views_of(
                items@,
            ).take(i as int + 1));
            reveal_strlit(" ");
            assert(" "@ =~= seq![' ']);
        }
        if i > 0 {
            out.append(" ");
        }
        out.append(items[i].as_str());
        i += 1;
    }
    proof {
        assert(views_of(items@).take(items@.len() as int) =~= views_of(items@));
    }
    out
}

} // verus!
