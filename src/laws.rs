//! Properties of scanning as a whole, proved over the model that
//! `Scanner::scan_tokens` is held to.
use vstd::prelude::*;
use crate::model::{
    continues, is_digit, is_space, lemma_lex_at_end, lemma_run_end, lex_at, line_at, operator_kinds,
    prefixed, run_end, SpecError, scan_from, scan_result, step_end,
    RunKind, SpecToken, Step, TokenType,
};

verus! {

/// `s[a..b]` holds only whitespace, line breaks and comments: scanning from
/// `a` passes over it to `b` without producing a token.
pub open spec fn blank_between(s: Seq<char>, a: int, b: int) -> bool
    decreases b - a,
{
    if a >= b {
        a == b
    } else {
        &&& 0 <= a < s.len()
        &&& lex_at(s, a) is Blank
        &&& a < step_end(lex_at(s, a)) <= b
        &&& blank_between(s, step_end(lex_at(s, a)), b)
    }
}

/// The source put back together from the tokens `ts`, starting at `from`:
/// before each token the text that precedes its lexeme, then the lexeme,
/// and after the last one the rest of the source.
pub open spec fn rejoin(s: Seq<char>, ts: Seq<SpecToken>, from: int) -> Seq<char>
    decreases ts.len(),
{
    if ts.len() == 0 {
        s.subrange(from, s.len() as int)
    } else {
        s.subrange(from, ts[0].start) + s.subrange(ts[0].start, ts[0].end) + rejoin(
            s,
            ts.drop_first(),
            ts[0].end,
        )
    }
}

proof fn lemma_scan_from_spaces(s: Seq<char>, i: int)
    requires
        0 <= i <= s.len(),
        forall|k: int| 0 <= k < s.len() ==> is_space(#[trigger] s[k]),
    ensures
        scan_from(s, i) == Ok::<Seq<SpecToken>, crate::model::SpecError>(Seq::empty()),
    decreases s.len() - i,
{
    if i < s.len() {
        lemma_scan_from_spaces(s, i + 1);
    }
}

/// A source made only of spaces, tabs, carriage returns and line breaks
/// scans to the end marker alone.
pub proof fn whitespace_only_scans_to_end_marker(s: Seq<char>)
    requires
        forall|k: int| 0 <= k < s.len() ==> is_space(#[trigger] s[k]),
    ensures
        scan_result(s) == Ok::<Seq<SpecToken>, crate::model::SpecError>(
            seq![SpecToken { kind: TokenType::Eof, start: s.len() as int, end: s.len() as int }],
        ),
{
    lemma_scan_from_spaces(s, 0);
    assert(Seq::<SpecToken>::empty().push(
        SpecToken { kind: TokenType::Eof, start: s.len() as int, end: s.len() as int },
    ) =~= seq![SpecToken { kind: TokenType::Eof, start: s.len() as int, end: s.len() as int }]);
}

/// Wherever a token begins with `!`, `=`, `<` or `>`, a following `=` makes
/// one two-character token of the combined kind; with no `=` after it, the
/// character is a one-character token of its own kind.
pub proof fn operator_followed_by_equal(s: Seq<char>, i: int)
    requires
        0 <= i < s.len(),
        operator_kinds(s[i]) is Some,
    ensures
        i + 1 < s.len() && s[i + 1] == '=' ==> lex_at(s, i) == (Step::Emit {
            kind: (operator_kinds(s[i])->0).1,
            end: i + 2,
        }),
        !(i + 1 < s.len() && s[i + 1] == '=') ==> lex_at(s, i) == (Step::Emit {
            kind: (operator_kinds(s[i])->0).0,
            end: i + 1,
        }),
        i + 1 < s.len() && s[i + 1] == '=' ==> scan_from(s, i) == prefixed(
            seq![SpecToken { kind: (operator_kinds(s[i])->0).1, start: i, end: i + 2 }],
            scan_from(s, i + 2),
        ),
        !(i + 1 < s.len() && s[i + 1] == '=') ==> scan_from(s, i) == prefixed(
            seq![SpecToken { kind: (operator_kinds(s[i])->0).0, start: i, end: i + 1 }],
            scan_from(s, i + 1),
        ),
{
}

/// Each of `!=`, `==`, `<=` and `>=` scans to its one two-character token;
/// the first character alone scans to its one-character token.
pub proof fn operator_spellings(c: char)
    requires
        operator_kinds(c) is Some,
    ensures
        scan_result(seq![c, '=']) == Ok::<Seq<SpecToken>, crate::model::SpecError>(
            seq![
                SpecToken { kind: (operator_kinds(c)->0).1, start: 0, end: 2 },
                SpecToken { kind: TokenType::Eof, start: 2, end: 2 },
            ],
        ),
        scan_result(seq![c]) == Ok::<Seq<SpecToken>, crate::model::SpecError>(
            seq![
                SpecToken { kind: (operator_kinds(c)->0).0, start: 0, end: 1 },
                SpecToken { kind: TokenType::Eof, start: 1, end: 1 },
            ],
        ),
{
    let two = seq![c, '='];
    let one = seq![c];
    assert(scan_from(two, 2) == Ok::<Seq<SpecToken>, crate::model::SpecError>(Seq::empty()));
    assert(scan_from(one, 1) == Ok::<Seq<SpecToken>, crate::model::SpecError>(Seq::empty()));
    assert(lex_at(two, 0) == (Step::Emit { kind: (operator_kinds(c)->0).1, end: 2 }));
    assert(lex_at(one, 0) == (Step::Emit { kind: (operator_kinds(c)->0).0, end: 1 }));
    assert(scan_result(two)->Ok_0 =~= seq![
        SpecToken { kind: (operator_kinds(c)->0).1, start: 0, end: 2 },
        SpecToken { kind: TokenType::Eof, start: 2, end: 2 },
    ]);
    assert(scan_result(one)->Ok_0 =~= seq![
        SpecToken { kind: (operator_kinds(c)->0).0, start: 0, end: 1 },
        SpecToken { kind: TokenType::Eof, start: 1, end: 1 },
    ]);
}

/// A `//` where a token may begin, and everything after it up to the next
/// line break, yields no token whatever it holds: scanning goes on at that
/// line break (or at the end) exactly as if the comment were not there.
pub proof fn comments_yield_no_token(s: Seq<char>, i: int)
    requires
        0 <= i,
        i + 1 < s.len(),
        s[i] == '/',
        s[i + 1] == '/',
    ensures
        scan_from(s, i) == scan_from(s, run_end(s, i + 2, RunKind::ToLineEnd)),
{
}

/// A source that is one comment, without a line break, scans to the end
/// marker alone.
pub proof fn comment_only_scans_to_end_marker(body: Seq<char>)
    requires
        forall|k: int| 0 <= k < body.len() ==> #[trigger] body[k] != '\n',
    ensures
        scan_result(seq!['/', '/'] + body) == Ok::<Seq<SpecToken>, crate::model::SpecError>(
            seq![SpecToken { kind: TokenType::Eof, start: body.len() + 2int, end: body.len() + 2int }],
        ),
{
    let s = seq!['/', '/'] + body;
    assert forall|k: int| 2 <= k < s.len() implies #[trigger] s[k] != '\n' by {
        assert(s[k] == body[k - 2]);
    }
    crate::model::lemma_run_end_at(s, 2, s.len() as int, RunKind::ToLineEnd);
    assert(scan_from(s, s.len() as int) == Ok::<Seq<SpecToken>, crate::model::SpecError>(Seq::empty()));
    assert(scan_result(s)->Ok_0 =~= seq![
        SpecToken { kind: TokenType::Eof, start: body.len() + 2int, end: body.len() + 2int },
    ]);
}

proof fn lemma_blank_step(s: Seq<char>, i: int, b: int)
    requires
        0 <= i < s.len(),
        lex_at(s, i) is Blank,
        step_end(lex_at(s, i)) <= b,
        blank_between(s, step_end(lex_at(s, i)), b),
    ensures
        blank_between(s, i, b),
{
    lemma_lex_at_end(s, i);
}

proof fn lemma_rejoin_prefix(s: Seq<char>, ts: Seq<SpecToken>, i: int, a: int)
    requires
        0 <= i <= a <= s.len(),
        ts.len() == 0 || (a <= ts[0].start && ts[0].start <= ts[0].end <= s.len()),
    ensures
        rejoin(s, ts, i) == s.subrange(i, a) + rejoin(s, ts, a),
{
    if ts.len() == 0 {
        assert(s.subrange(i, s.len() as int) =~= s.subrange(i, a) + s.subrange(a, s.len() as int));
    } else {
        assert(s.subrange(i, ts[0].start) =~= s.subrange(i, a) + s.subrange(a, ts[0].start));
        assert(rejoin(s, ts, i) =~= s.subrange(i, a) + rejoin(s, ts, a));
    }
}

/// The tokens `ts`, scanned from position `i` of `s`, lie in order in
/// `s[i..]`, with only blanks before, between and after them, and rejoin
/// to `s[i..]`.
pub open spec fn tiles(s: Seq<char>, ts: Seq<SpecToken>, i: int) -> bool {
    &&& forall|k: int| 0 <= k < ts.len() ==> i <= #[trigger] ts[k].start < ts[k].end <= s.len()
    &&& forall|k: int| 0 <= k < ts.len() - 1 ==> #[trigger] ts[k].end <= ts[k + 1].start
    &&& forall|k: int|
        0 <= k < ts.len() - 1 ==> blank_between(s, #[trigger] ts[k].end, ts[k + 1].start)
    &&& blank_between(s, i, if ts.len() == 0 { s.len() as int } else { ts[0].start })
    &&& ts.len() > 0 ==> blank_between(s, ts.last().end, s.len() as int)
    &&& rejoin(s, ts, i) == s.subrange(i, s.len() as int)
}

proof fn lemma_tiles_blank(s: Seq<char>, ts: Seq<SpecToken>, i: int)
    requires
        0 <= i < s.len(),
        lex_at(s, i) is Blank,
        tiles(s, ts, step_end(lex_at(s, i))),
    ensures
        tiles(s, ts, i),
{
    lemma_lex_at_end(s, i);
    let end = step_end(lex_at(s, i));
    let x = if ts.len() == 0 { s.len() as int } else { ts[0].start };
    lemma_blank_step(s, i, x);
    lemma_rejoin_prefix(s, ts, i, end);
    assert(s.subrange(i, s.len() as int) =~= s.subrange(i, end) + s.subrange(end, s.len() as int));
}

proof fn lemma_tiles_emit(s: Seq<char>, t: SpecToken, rest: Seq<SpecToken>)
    requires
        0 <= t.start < t.end <= s.len(),
        tiles(s, rest, t.end),
    ensures
        tiles(s, seq![t] + rest, t.start),
{
    let i = t.start;
    let end = t.end;
    let ts = seq![t] + rest;
    assert(ts.drop_first() =~= rest);
    assert forall|k: int| 0 <= k < ts.len() - 1 implies #[trigger] ts[k].end <= ts[k + 1].start
        && blank_between(s, ts[k].end, ts[k + 1].start) by {
        if k > 0 {
            assert(ts[k] == rest[k - 1]);
            assert(ts[k + 1] == rest[k]);
        }
    }
    assert forall|k: int| 0 <= k < ts.len() implies i <= #[trigger] ts[k].start < ts[k].end
        <= s.len() by {
        if k > 0 {
            assert(ts[k] == rest[k - 1]);
        }
    }
    if rest.len() > 0 {
        assert(ts.last() == rest.last());
    }
    assert(s.subrange(i, i) =~= Seq::<char>::empty());
    assert(s.subrange(i, s.len() as int) =~= s.subrange(i, end) + s.subrange(end, s.len() as int));
    assert(rejoin(s, ts, i) =~= s.subrange(i, end) + rejoin(s, rest, end));
}

proof fn lemma_tiles_from(s: Seq<char>, i: int)
    requires
        0 <= i <= s.len(),
        scan_from(s, i) is Ok,
    ensures
        tiles(s, scan_from(s, i)->Ok_0, i),
    decreases s.len() - i,
{
    if i == s.len() {
        assert(s.subrange(i, i) =~= Seq::<char>::empty());
        return;
    }
    lemma_lex_at_end(s, i);
    match lex_at(s, i) {
        Step::Blank { end } => {
            lemma_tiles_from(s, end);
            lemma_tiles_blank(s, scan_from(s, end)->Ok_0, i);
        },
        Step::Emit { kind, end } => {
            lemma_tiles_from(s, end);
            lemma_tiles_emit(s, SpecToken { kind, start: i, end }, scan_from(s, end)->Ok_0);
        },
        _ => {},
    }
}

/// Scanning reproduces the source: the tokens' lexemes stand in the source
/// in order, what lies before, between and after them is only whitespace,
/// line breaks and comments, and putting those pieces back around the
/// lexemes gives the source exactly. (`scan_tokens` returns each lexeme as
/// the source text from `start` to `end` of its token.)
pub proof fn lexemes_rejoin_to_source(s: Seq<char>)
    requires
        scan_result(s) is Ok,
    ensures
        ({
            let ts = scan_result(s)->Ok_0;
            &&& ts.len() >= 1
            &&& ts.last() == SpecToken { kind: TokenType::Eof, start: s.len() as int, end: s.len() as int }
            &&& forall|k: int| 0 <= k < ts.len() ==> 0 <= #[trigger] ts[k].start <= ts[k].end <= s.len()
            &&& blank_between(s, 0, ts[0].start)
            &&& forall|k: int|
                0 <= k < ts.len() - 1 ==> blank_between(s, #[trigger] ts[k].end, ts[k + 1].start)
            &&& rejoin(s, ts, 0) == s
        }),
{
    lemma_tiles_from(s, 0);
    let body = scan_from(s, 0)->Ok_0;
    let eof = SpecToken { kind: TokenType::Eof, start: s.len() as int, end: s.len() as int };
    let ts = body.push(eof);
    assert forall|k: int| 0 <= k < ts.len() - 1 implies blank_between(
        s,
        #[trigger] ts[k].end,
        ts[k + 1].start,
    ) by {
        assert(ts[k] == body[k]);
        if k < body.len() - 1 {
            assert(ts[k + 1] == body[k + 1]);
        }
    }
    lemma_rejoin_push_end(s, body, 0, eof);
    assert(s.subrange(0, s.len() as int) =~= s);
}

proof fn lemma_rejoin_push_end(s: Seq<char>, ts: Seq<SpecToken>, i: int, eof: SpecToken)
    requires
        0 <= i <= s.len(),
        eof.start == s.len(),
        eof.end == s.len(),
        ts.len() > 0 ==> i <= ts[0].start,
        forall|k: int| 0 <= k < ts.len() ==> #[trigger] ts[k].start <= ts[k].end <= s.len(),
        forall|k: int| 0 <= k < ts.len() - 1 ==> #[trigger] ts[k].end <= ts[k + 1].start,
    ensures
        rejoin(s, ts.push(eof), i) == rejoin(s, ts, i),
    decreases ts.len(),
{
    if ts.len() == 0 {
        assert(ts.push(eof).drop_first() =~= Seq::<SpecToken>::empty());
        assert(s.subrange(s.len() as int, s.len() as int) =~= Seq::<char>::empty());
        assert(rejoin(s, Seq::<SpecToken>::empty(), s.len() as int) =~= Seq::<char>::empty());
        assert(rejoin(s, ts.push(eof), i) =~= rejoin(s, ts, i));
    } else {
        let rest = ts.drop_first();
        assert(ts.push(eof).drop_first() =~= rest.push(eof));
        assert forall|k: int| 0 <= k < rest.len() - 1 implies #[trigger] rest[k].end <= rest[k + 1].start by {
            assert(rest[k] == ts[k + 1]);
        }
        lemma_rejoin_push_end(s, rest, ts[0].end, eof);
    }
}


/// Tokens `t1` of source `s1` and `t2` of source `s2` look the same to a
/// reader of the token list: same kind, same lexeme, same line.
pub open spec fn same_token(s1: Seq<char>, t1: SpecToken, s2: Seq<char>, t2: SpecToken) -> bool {
    &&& t1.kind == t2.kind
    &&& s1.subrange(t1.start, t1.end) == s2.subrange(t2.start, t2.end)
    &&& line_at(s1, t1.start) == line_at(s2, t2.start)
}

/// Scanning `s1` and scanning `s2` give the same tokens with the same lines,
/// or the same error on the same line.
pub open spec fn same_outcome(
    s1: Seq<char>,
    r1: Result<Seq<SpecToken>, SpecError>,
    s2: Seq<char>,
    r2: Result<Seq<SpecToken>, SpecError>,
) -> bool {
    match (r1, r2) {
        (Ok(x), Ok(y)) => x.len() == y.len() && forall|k: int|
            0 <= k < x.len() ==> same_token(s1, #[trigger] x[k], s2, y[k]),
        (Err(e1), Err(e2)) => e1.unterminated == e2.unterminated && line_at(s1, e1.at) == line_at(
            s2,
            e2.at,
        ),
        _ => false,
    }
}

proof fn lemma_run_end_prefix(a: Seq<char>, x: Seq<char>, j: int, k: RunKind)
    requires
        0 <= j <= a.len(),
        run_end(a, j, k) < a.len(),
    ensures
        run_end(a + x, j, k) == run_end(a, j, k),
    decreases a.len() - j,
{
    if j < a.len() && continues(k, a[j]) {
        lemma_run_end_prefix(a, x, j + 1, k);
    }
}

proof fn lemma_run_stops(a: Seq<char>, j: int, m: int, k: RunKind)
    requires
        0 <= j <= m < a.len(),
        !continues(k, a[m]),
    ensures
        run_end(a, j, k) <= m,
    decreases m - j,
{
    if j < m && continues(k, a[j]) {
        lemma_run_stops(a, j + 1, m, k);
    }
}

proof fn lemma_lex_at_prefix(a: Seq<char>, x: Seq<char>, i: int)
    requires
        0 <= i < a.len(),
        a.last() == '\n',
        !(lex_at(a, i) is Unterminated),
    ensures
        lex_at(a + x, i) == lex_at(a, i),
        (lex_at(a, i) is Blank || lex_at(a, i) is Emit) ==> step_end(lex_at(a, i)) <= a.len(),
{
    let s = a + x;
    let n = a.len() as int;
    let c = a[i];
    assert(s[i] == c);
    lemma_lex_at_end(a, i);
    if i + 1 < n {
        assert(s[i + 1] == a[i + 1]);
    }
    if c == '/' && i + 1 < n && a[i + 1] == '/' {
        lemma_run_stops(a, i + 2, n - 1, RunKind::ToLineEnd);
        lemma_run_end_prefix(a, x, i + 2, RunKind::ToLineEnd);
    }
    if c == '"' {
        lemma_run_end(a, i + 1, RunKind::ToQuote);
        lemma_run_end_prefix(a, x, i + 1, RunKind::ToQuote);
    }
    if is_digit(c) {
        lemma_run_stops(a, i + 1, n - 1, RunKind::Digits);
        lemma_run_end(a, i + 1, RunKind::Digits);
        lemma_run_end_prefix(a, x, i + 1, RunKind::Digits);
        let k = run_end(a, i + 1, RunKind::Digits);
        assert(s[k] == a[k]);
        if k + 1 < n {
            assert(s[k + 1] == a[k + 1]);
        }
        if k + 1 < n && a[k] == '.' && is_digit(a[k + 1]) {
            lemma_run_stops(a, k + 2, n - 1, RunKind::Digits);
            lemma_run_end_prefix(a, x, k + 2, RunKind::Digits);
        }
    }
    if crate::model::is_ident_start(c) {
        lemma_run_stops(a, i + 1, n - 1, RunKind::Word);
        lemma_run_end_prefix(a, x, i + 1, RunKind::Word);
        let k = run_end(a, i + 1, RunKind::Word);
        assert(s.subrange(i, k) =~= a.subrange(i, k));
    }
}

proof fn lemma_scan_prefix(a: Seq<char>, x: Seq<char>, i: int)
    requires
        0 <= i <= a.len(),
        a.len() > 0 ==> a.last() == '\n',
        scan_from(a, i) is Ok,
    ensures
        scan_from(a + x, i) == prefixed(scan_from(a, i)->Ok_0, scan_from(a + x, a.len() as int)),
    decreases a.len() - i,
{
    let s = a + x;
    if i == a.len() {
        match scan_from(s, i) {
            Ok(ts) => {
                assert(Seq::<SpecToken>::empty() + ts =~= ts);
            },
            Err(_) => {},
        }
        return;
    }
    lemma_lex_at_prefix(a, x, i);
    lemma_lex_at_end(a, i);
    match lex_at(a, i) {
        Step::Blank { end } => {
            lemma_scan_prefix(a, x, end);
        },
        Step::Emit { kind, end } => {
            lemma_scan_prefix(a, x, end);
            let t = SpecToken { kind, start: i, end };
            let rest = scan_from(a, end)->Ok_0;
            match scan_from(s, a.len() as int) {
                Ok(ts) => {
                    assert(seq![t] + (rest + ts) =~= (seq![t] + rest) + ts);
                },
                Err(_) => {},
            }
        },
        _ => {},
    }
}

/// `st2` is the step `st1` moved by `d` positions.
pub open spec fn shifted(st1: Step, st2: Step, d: int) -> bool {
    match (st1, st2) {
        (Step::Blank { end: e1 }, Step::Blank { end: e2 }) => e2 == e1 + d,
        (Step::Emit { kind: k1, end: e1 }, Step::Emit { kind: k2, end: e2 }) => k1 == k2 && e2
            == e1 + d,
        (Step::Unterminated, Step::Unterminated) => true,
        (Step::Unexpected, Step::Unexpected) => true,
        _ => false,
    }
}

/// `s1` from `p` on and `s2` from `q` on are the same text.
pub open spec fn same_rest(s1: Seq<char>, p: int, s2: Seq<char>, q: int) -> bool {
    &&& 0 <= p <= s1.len()
    &&& 0 <= q <= s2.len()
    &&& s1.subrange(p, s1.len() as int) == s2.subrange(q, s2.len() as int)
}

proof fn lemma_same_rest_index(s1: Seq<char>, p: int, s2: Seq<char>, q: int, m: int)
    requires
        same_rest(s1, p, s2, q),
        0 <= m < s1.len() - p,
    ensures
        s1.len() - p == s2.len() - q,
        s1[p + m] == s2[q + m],
{
    assert(s1.subrange(p, s1.len() as int).len() == s2.subrange(q, s2.len() as int).len());
    assert(s1.subrange(p, s1.len() as int)[m] == s2.subrange(q, s2.len() as int)[m]);
}

proof fn lemma_run_end_shift(s1: Seq<char>, p: int, s2: Seq<char>, q: int, m: int, k: RunKind)
    requires
        same_rest(s1, p, s2, q),
        0 <= m <= s1.len() - p,
    ensures
        run_end(s2, q + m, k) == run_end(s1, p + m, k) + (q - p),
    decreases s1.len() - p - m,
{
    assert(s1.subrange(p, s1.len() as int).len() == s2.subrange(q, s2.len() as int).len());
    if m < s1.len() - p {
        lemma_same_rest_index(s1, p, s2, q, m);
        if continues(k, s1[p + m]) {
            lemma_run_end_shift(s1, p, s2, q, m + 1, k);
        }
    }
}

proof fn lemma_lex_at_shift(s1: Seq<char>, p: int, s2: Seq<char>, q: int)
    requires
        same_rest(s1, p, s2, q),
        p < s1.len(),
    ensures
        shifted(lex_at(s1, p), lex_at(s2, q), q - p),
{
    let d = q - p;
    lemma_same_rest_index(s1, p, s2, q, 0);
    if p + 1 < s1.len() {
        lemma_same_rest_index(s1, p, s2, q, 1);
    }
    let c = s1[p];
    lemma_run_end_shift(s1, p, s2, q, 1, RunKind::ToQuote);
    lemma_run_end_shift(s1, p, s2, q, 1, RunKind::Digits);
    lemma_run_end_shift(s1, p, s2, q, 1, RunKind::Word);
    if p + 2 <= s1.len() {
        lemma_run_end_shift(s1, p, s2, q, 2, RunKind::ToLineEnd);
    }
    if is_digit(c) {
        let k = run_end(s1, p + 1, RunKind::Digits);
        lemma_run_end(s1, p + 1, RunKind::Digits);
        if k < s1.len() {
            lemma_same_rest_index(s1, p, s2, q, k - p);
        }
        if k + 1 < s1.len() {
            lemma_same_rest_index(s1, p, s2, q, k + 1 - p);
            lemma_run_end_shift(s1, p, s2, q, k + 2 - p, RunKind::Digits);
        }
    }
    if crate::model::is_ident_start(c) {
        let k = run_end(s1, p + 1, RunKind::Word);
        lemma_run_end(s1, p + 1, RunKind::Word);
        assert forall|m: int| 0 <= m < k - p implies s1.subrange(p, k)[m] == s2.subrange(
            q,
            k + d,
        )[m] by {
            lemma_same_rest_index(s1, p, s2, q, m);
        }
        assert(s1.subrange(p, k) =~= s2.subrange(q, k + d));
    }
}

/// What `lemma_scan_shift` states: the two scans agree with positions moved
/// by `q - p`, and stay within the sources.
pub open spec fn shifted_scan(
    s1: Seq<char>,
    r1: Result<Seq<SpecToken>, SpecError>,
    p: int,
    r2: Result<Seq<SpecToken>, SpecError>,
    q: int,
) -> bool {
    match (r1, r2) {
        (Ok(x), Ok(y)) => x.len() == y.len() && forall|k: int|
            0 <= k < x.len() ==> {
                &&& p <= (#[trigger] x[k]).start <= x[k].end <= s1.len()
                &&& y[k].kind == x[k].kind
                &&& y[k].start == x[k].start + (q - p)
                &&& y[k].end == x[k].end + (q - p)
            },
        (Err(e1), Err(e2)) => {
            &&& e1.unterminated == e2.unterminated
            &&& p <= e1.at <= s1.len()
            &&& e2.at == e1.at + (q - p)
        },
        _ => false,
    }
}

proof fn lemma_scan_shift(s1: Seq<char>, p: int, s2: Seq<char>, q: int)
    requires
        same_rest(s1, p, s2, q),
    ensures
        shifted_scan(s1, scan_from(s1, p), p, scan_from(s2, q), q),
    decreases s1.len() - p,
{
    assert(s1.subrange(p, s1.len() as int).len() == s2.subrange(q, s2.len() as int).len());
    if p == s1.len() {
        return;
    }
    lemma_lex_at_shift(s1, p, s2, q);
    lemma_lex_at_end(s1, p);
    match lex_at(s1, p) {
        Step::Blank { end } => {
            lemma_same_rest_shift(s1, p, s2, q, end - p);
            lemma_scan_shift(s1, end, s2, end + (q - p));
        },
        Step::Emit { kind, end } => {
            lemma_same_rest_shift(s1, p, s2, q, end - p);
            lemma_scan_shift(s1, end, s2, end + (q - p));
            let d = q - p;
            match (scan_from(s1, end), scan_from(s2, end + d)) {
                (Ok(x), Ok(y)) => {
                    let t1 = SpecToken { kind, start: p, end };
                    let t2 = SpecToken { kind, start: q, end: end + d };
                    let xs = seq![t1] + x;
                    let ys = seq![t2] + y;
                    assert forall|k: int| 0 <= k < xs.len() implies {
                        &&& p <= (#[trigger] xs[k]).start <= xs[k].end <= s1.len()
                        &&& ys[k].kind == xs[k].kind
                        &&& ys[k].start == xs[k].start + d
                        &&& ys[k].end == xs[k].end + d
                    } by {
                        if k > 0 {
                            assert(xs[k] == x[k - 1]);
                            assert(ys[k] == y[k - 1]);
                        }
                    }
                },
                _ => {},
            }
        },
        _ => {},
    }
}

proof fn lemma_same_rest_shift(s1: Seq<char>, p: int, s2: Seq<char>, q: int, m: int)
    requires
        same_rest(s1, p, s2, q),
        0 <= m <= s1.len() - p,
    ensures
        same_rest(s1, p + m, s2, q + m),
{
    assert(s1.subrange(p, s1.len() as int).len() == s2.subrange(q, s2.len() as int).len());
    assert(s1.subrange(p + m, s1.len() as int) =~= s1.subrange(p, s1.len() as int).subrange(
        m,
        s1.len() - p,
    ));
    assert(s2.subrange(q + m, s2.len() as int) =~= s2.subrange(q, s2.len() as int).subrange(
        m,
        s2.len() - q,
    ));
}

proof fn lemma_line_at_add(s: Seq<char>, i: int, j: int)
    requires
        0 <= i <= j <= s.len(),
    ensures
        line_at(s, j) == line_at(s, i) + crate::model::newlines(s.subrange(i, j)),
    decreases j - i,
{
    if j > i {
        lemma_line_at_add(s, i, j - 1);
        crate::model::lemma_line_at_next(s, j - 1);
        assert(s.subrange(i, j).drop_last() =~= s.subrange(i, j - 1));
    } else {
        assert(s.subrange(i, j).len() == 0);
    }
}

proof fn lemma_shift_text(s1: Seq<char>, p: int, s2: Seq<char>, q: int, u: int, v: int)
    requires
        same_rest(s1, p, s2, q),
        line_at(s1, p) == line_at(s2, q),
        p <= u <= v <= s1.len(),
    ensures
        s1.subrange(u, v) == s2.subrange(u + (q - p), v + (q - p)),
        line_at(s1, u) == line_at(s2, u + (q - p)),
{
    let d = q - p;
    assert(s1.subrange(p, s1.len() as int).len() == s2.subrange(q, s2.len() as int).len());
    assert(s1.subrange(u, v) =~= s1.subrange(p, s1.len() as int).subrange(u - p, v - p));
    assert(s2.subrange(u + d, v + d) =~= s2.subrange(q, s2.len() as int).subrange(u - p, v - p));
    assert(s1.subrange(p, u) =~= s1.subrange(p, s1.len() as int).subrange(0, u - p));
    assert(s2.subrange(q, u + d) =~= s2.subrange(q, s2.len() as int).subrange(0, u - p));
    lemma_line_at_add(s1, p, u);
    lemma_line_at_add(s2, q, u + d);
}

proof fn lemma_common_prefix_text(s1: Seq<char>, s2: Seq<char>, n: int, u: int, v: int)
    requires
        0 <= u <= v <= n <= s1.len(),
        n <= s2.len(),
        s1.subrange(0, n) == s2.subrange(0, n),
    ensures
        s1.subrange(u, v) == s2.subrange(u, v),
        line_at(s1, u) == line_at(s2, u),
{
    assert(s1.subrange(u, v) =~= s1.subrange(0, n).subrange(u, v));
    assert(s2.subrange(u, v) =~= s2.subrange(0, n).subrange(u, v));
    assert(s1.subrange(0, u) =~= s1.subrange(0, n).subrange(0, u));
    assert(s2.subrange(0, u) =~= s2.subrange(0, n).subrange(0, u));
}

proof fn lemma_assemble(s1: Seq<char>, s2: Seq<char>, n: int, p: int, ta: Seq<SpecToken>)
    requires
        0 <= n <= p <= s1.len(),
        n <= s2.len(),
        s1.subrange(0, n) == s2.subrange(0, n),
        forall|k: int| 0 <= k < ta.len() ==> 0 <= #[trigger] ta[k].start < ta[k].end <= n,
        scan_from(s1, 0) == prefixed(ta, scan_from(s1, p)),
        scan_from(s2, 0) == prefixed(ta, scan_from(s2, n)),
        same_rest(s1, p, s2, n),
        line_at(s1, p) == line_at(s2, n),
        shifted_scan(s1, scan_from(s1, p), p, scan_from(s2, n), n),
    ensures
        same_outcome(s1, scan_result(s1), s2, scan_result(s2)),
{
    assert(s1.subrange(p, s1.len() as int).len() == s2.subrange(n, s2.len() as int).len());
    match (scan_from(s1, p), scan_from(s2, n)) {
        (Ok(x), Ok(y)) => {
            let e1 = SpecToken { kind: TokenType::Eof, start: s1.len() as int, end: s1.len() as int };
            let e2 = SpecToken { kind: TokenType::Eof, start: s2.len() as int, end: s2.len() as int };
            let xs = (ta + x).push(e1);
            let ys = (ta + y).push(e2);
            assert(scan_result(s1) == Ok::<Seq<SpecToken>, SpecError>(xs));
            assert(scan_result(s2) == Ok::<Seq<SpecToken>, SpecError>(ys));
            assert forall|k: int| 0 <= k < xs.len() implies same_token(s1, #[trigger] xs[k], s2, ys[k]) by {
                if k < ta.len() {
                    assert(xs[k] == ta[k] && ys[k] == ta[k]);
                    lemma_common_prefix_text(s1, s2, n, ta[k].start, ta[k].end);
                } else if k < ta.len() + x.len() {
                    let j = k - ta.len();
                    assert(xs[k] == x[j] && ys[k] == y[j]);
                    assert(p <= x[j].start <= x[j].end <= s1.len());
                    lemma_shift_text(s1, p, s2, n, x[j].start, x[j].end);
                } else {
                    assert(xs[k] == e1 && ys[k] == e2);
                    lemma_shift_text(s1, p, s2, n, s1.len() as int, s1.len() as int);
                }
            }
        },
        (Err(e1), Err(e2)) => {
            lemma_shift_text(s1, p, s2, n, e1.at, e1.at);
        },
        _ => {},
    }
}

/// Removing a comment changes nothing a reader of the tokens sees: where
/// `a` is empty or ends a line and scans without error, and `b` is empty
/// or begins a new line, the source `a // c b` (with `c` free of line
/// breaks, and whatever else it holds) scans to the same tokens, with the
/// same lexemes and lines, as `a b`, or fails with the same error on the
/// same line.
#[verifier::rlimit(60)]
pub proof fn comment_removal_keeps_scan(a: Seq<char>, c: Seq<char>, b: Seq<char>)
    requires
        a.len() == 0 || a.last() == '\n',
        scan_result(a) is Ok,
        forall|k: int| 0 <= k < c.len() ==> #[trigger] c[k] != '\n',
        b.len() == 0 || b[0] == '\n',
    ensures
        same_outcome(
            a + seq!['/', '/'] + c + b,
            scan_result(a + seq!['/', '/'] + c + b),
            a + b,
            scan_result(a + b),
        ),
{
    let x1 = seq!['/', '/'] + c + b;
    let s1 = a + seq!['/', '/'] + c + b;
    let s2 = a + b;
    assert(s1 =~= a + x1);
    let n = a.len() as int;
    let p = n + 2 + c.len();
    lemma_scan_prefix(a, x1, 0);
    lemma_scan_prefix(a, b, 0);
    crate::model::lemma_line_at_same(s1, 0, 0);
    assert(s1[n] == '/' && s1[n + 1] == '/');
    assert forall|k: int| n + 2 <= k < p implies continues(RunKind::ToLineEnd, #[trigger] s1[k]) by {
        assert(s1[k] == c[k - n - 2]);
    }
    if p < s1.len() {
        assert(s1[p] == b[0]);
    }
    crate::model::lemma_run_end_at(s1, n + 2, p, RunKind::ToLineEnd);
    comments_yield_no_token(s1, n);
    assert(s1.subrange(p, s1.len() as int) =~= b);
    assert(s2.subrange(n, s2.len() as int) =~= b);
    lemma_scan_shift(s1, p, s2, n);
    assert forall|k: int| n <= k < p implies #[trigger] s1[k] != '\n' by {
        if k >= n + 2 {
            assert(s1[k] == c[k - n - 2]);
        }
    }
    crate::model::lemma_line_at_same(s1, n, p);
    assert(s1.subrange(0, n) =~= a);
    assert(s2.subrange(0, n) =~= a);
    lemma_common_prefix_text(s1, s2, n, n, n);
    let ta = scan_from(a, 0)->Ok_0;
    lemma_tiles_from(a, 0);
    assert(scan_from(s1, 0) == prefixed(ta, scan_from(s1, p)));
    assert(scan_from(s2, 0) == prefixed(ta, scan_from(s2, n)));
    lemma_assemble(s1, s2, n, p, ta);
}

} // verus!
