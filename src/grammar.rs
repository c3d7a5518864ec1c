//! The grammar of the text form of points and lines, `POINT (x y)` and
//! `LINESTRING (x1 y1, x2 y2, ...)`, stated over sequences of characters,
//! with the laws that tie reading a text to writing one.
//!
//! Whitespace (any Unicode White_Space character) may stand around every
//! token, the keyword may be in any case,
//! and a coordinate is a signed decimal number whose digits are ASCII.
use vstd::prelude::*;

verus! {

/// Whitespace accepted around the tokens of a WKT text: the characters
/// that Unicode gives the White_Space property.
pub open spec fn is_ws(c: char) -> bool {
    ('\t' <= c && c <= '\r') || c == ' ' || c == '\u{85}' || c == '\u{A0}' || c == '\u{1680}'
    || ('\u{2000}' <= c && c <= '\u{200A}') || c == '\u{2028}' || c == '\u{2029}'
    || c == '\u{202F}' || c == '\u{205F}' || c == '\u{3000}'
}

pub open spec fn is_digit(c: char) -> bool {
    '0' <= c && c <= '9'
}

pub open spec fn is_sign(c: char) -> bool {
    c == '+' || c == '-'
}

/// The code of `c` with case set aside for the ASCII letters: a lower-case
/// ASCII letter, and each of the two other characters that fold to one
/// (the long s and the Kelvin sign), gives the code of the upper-case ASCII
/// letter.
pub open spec fn upper_code(c: char) -> u32 {
    if 'a' <= c && c <= 'z' {
        (c as u32 - 32) as u32
    } else if c == '\u{17F}' {
        'S' as u32
    } else if c == '\u{212A}' {
        'K' as u32
    } else {
        c as u32
    }
}

/// A number without its sign, if it has one.
pub open spec fn unsigned_part(s: Seq<char>) -> Seq<char> {
    if s.len() > 0 && is_sign(s[0]) {
        s.drop_first()
    } else {
        s
    }
}

/// A number as the grammar reads it: an optional sign, then digits with at
/// most one decimal point among them, the first of them a digit.
pub open spec fn is_number(s: Seq<char>) -> bool {
    let b = unsigned_part(s);
    &&& b.len() > 0
    &&& is_digit(b[0])
    &&& forall|k: int| 0 <= k < b.len() ==> is_digit(#[trigger] b[k]) || b[k] == '.'
    &&& forall|k: int, m: int|
        #![trigger b[k], b[m]]
        0 <= k < m < b.len() && b[k] == '.' ==> b[m] != '.'
}

/// The first position at or after `i` that does not hold whitespace.
pub open spec fn ws_end(t: Seq<char>, i: int) -> int
    decreases t.len() - i,
{
    if 0 <= i < t.len() && is_ws(t[i]) {
        ws_end(t, i + 1)
    } else {
        i
    }
}

/// The first position at or after `i` that does not hold a digit.
pub open spec fn digits_end(t: Seq<char>, i: int) -> int
    decreases t.len() - i,
{
    if 0 <= i < t.len() && is_digit(t[i]) {
        digits_end(t, i + 1)
    } else {
        i
    }
}

/// Where the number that starts at `i` ends, if one starts there: an
/// optional sign, one or more digits, then optionally a point and more
/// digits, each run as long as it goes.
pub open spec fn number_end(t: Seq<char>, i: int) -> Option<int> {
    let j = if 0 <= i < t.len() && is_sign(t[i]) { i + 1 } else { i };
    let k = digits_end(t, j);
    if k == j {
        None
    } else if k < t.len() && t[k] == '.' {
        Some(digits_end(t, k + 1))
    } else {
        Some(k)
    }
}

/// `kw` (upper case) stands at position `i` of `t`, in any case.
pub open spec fn keyword_at(t: Seq<char>, i: int, kw: Seq<char>) -> bool {
    &&& 0 <= i
    &&& i + kw.len() <= t.len()
    &&& forall|k: int| 0 <= k < kw.len() ==> upper_code(#[trigger] t[i + k]) == kw[k] as u32
}

/// A coordinate pair `x y` that starts at `i`: the two tokens and the
/// position after the second one.
pub open spec fn pair_at(t: Seq<char>, i: int) -> Option<(Seq<char>, Seq<char>, int)> {
    match number_end(t, i) {
        None => None,
        Some(d) => {
            let e = ws_end(t, d);
            if e == d {
                None
            } else {
                match number_end(t, e) {
                    None => None,
                    Some(f) => Some((t.subrange(i, d), t.subrange(e, f), f)),
                }
            }
        },
    }
}

pub open spec fn point_keyword() -> Seq<char> {
    seq!['P', 'O', 'I', 'N', 'T']
}

pub open spec fn linestring_keyword() -> Seq<char> {
    seq!['L', 'I', 'N', 'E', 'S', 'T', 'R', 'I', 'N', 'G']
}

/// The position just inside the opening parenthesis that follows the
/// keyword `kw` at the start of `t`, past any whitespace.
pub open spec fn body_start(t: Seq<char>, kw: Seq<char>) -> Option<int> {
    let a = ws_end(t, 0);
    if !keyword_at(t, a, kw) {
        None
    } else {
        let b = ws_end(t, a + kw.len());
        if b < t.len() && t[b] == '(' {
            Some(ws_end(t, b + 1))
        } else {
            None
        }
    }
}

/// `t` holds nothing from `i` on but whitespace, a closing parenthesis,
/// and whitespace.
pub open spec fn closes_at(t: Seq<char>, i: int) -> bool {
    let g = ws_end(t, i);
    g < t.len() && t[g] == ')' && ws_end(t, g + 1) == t.len()
}

/// The coordinate tokens of a `POINT (x y)` text, or `None` where `t` is
/// not one.
pub open spec fn point_parts(t: Seq<char>) -> Option<(Seq<char>, Seq<char>)> {
    match body_start(t, point_keyword()) {
        None => None,
        Some(c) => match pair_at(t, c) {
            None => None,
            Some((x, y, f)) => if closes_at(t, f) {
                Some((x, y))
            } else {
                None
            },
        },
    }
}

/// The coordinate pairs of a line's body, read from `i` up to the closing
/// parenthesis, and the position just after that parenthesis.
pub open spec fn pairs_from(t: Seq<char>, i: int) -> Option<(Seq<(Seq<char>, Seq<char>)>, int)>
    decreases t.len() - i,
    via pairs_from_decreases
{
    match pair_at(t, i) {
        None => None,
        Some((x, y, f)) => {
            let g = ws_end(t, f);
            if g < t.len() && t[g] == ')' {
                Some((seq![(x, y)], g + 1))
            } else if g < t.len() && t[g] == ',' {
                match pairs_from(t, ws_end(t, g + 1)) {
                    None => None,
                    Some((rest, h)) => Some((seq![(x, y)] + rest, h)),
                }
            } else {
                None
            }
        },
    }
}

#[via_fn]
proof fn pairs_from_decreases(t: Seq<char>, i: int) {
    if let Some((x, y, f)) = pair_at(t, i) {
        lemma_pair_at_bounds(t, i);
        let g = ws_end(t, f);
        lemma_ws_end_bounds(t, f);
        if g < t.len() {
            lemma_ws_end_bounds(t, g + 1);
        }
    }
}

/// The coordinate pairs of a `LINESTRING (x1 y1, x2 y2, ...)` text with at
/// least two pairs, or `None` where `t` is not one.
pub open spec fn linestring_parts(t: Seq<char>) -> Option<Seq<(Seq<char>, Seq<char>)>> {
    match body_start(t, linestring_keyword()) {
        None => None,
        Some(c) => match pairs_from(t, c) {
            None => None,
            Some((ps, h)) => if ps.len() >= 2 && ws_end(t, h) == t.len() {
                Some(ps)
            } else {
                None
            },
        },
    }
}

/// The text of a point whose coordinates are written `x` and `y`.
pub open spec fn point_text(x: Seq<char>, y: Seq<char>) -> Seq<char> {
    seq!['P', 'O', 'I', 'N', 'T', ' ', '('] + x + seq![' '] + y + seq![')']
}

/// A coordinate pair written `x y`.
pub open spec fn pair_text(p: (Seq<char>, Seq<char>)) -> Seq<char> {
    p.0 + seq![' '] + p.1
}

/// Coordinate pairs written one after the other, separated by `, `.
pub open spec fn pairs_text(ps: Seq<(Seq<char>, Seq<char>)>) -> Seq<char>
    decreases ps.len(),
{
    if ps.len() == 0 {
        seq![]
    } else if ps.len() == 1 {
        pair_text(ps[0])
    } else {
        pair_text(ps[0]) + seq![',', ' '] + pairs_text(ps.drop_first())
    }
}

/// The text of a line whose coordinates are written as the pairs `ps`.
pub open spec fn linestring_text(ps: Seq<(Seq<char>, Seq<char>)>) -> Seq<char> {
    seq!['L', 'I', 'N', 'E', 'S', 'T', 'R', 'I', 'N', 'G', ' ', '('] + pairs_text(ps) + seq![')']
}

/// Both tokens of every pair are numbers.
pub open spec fn all_numbers(ps: Seq<(Seq<char>, Seq<char>)>) -> bool {
    forall|k: int| 0 <= k < ps.len() ==> is_number(#[trigger] ps[k].0) && is_number(ps[k].1)
}

/// Every character of `s` is whitespace.
pub open spec fn all_ws(s: Seq<char>) -> bool {
    forall|k: int| 0 <= k < s.len() ==> is_ws(#[trigger] s[k])
}

/// `k` is the keyword `kw` written in any case.
pub open spec fn spells(k: Seq<char>, kw: Seq<char>) -> bool {
    &&& k.len() == kw.len()
    &&& forall|m: int| 0 <= m < k.len() ==> upper_code(#[trigger] k[m]) == kw[m] as u32
}

/// A coordinate pair as it may be written: whitespace, the x token,
/// whitespace, the y token, whitespace.
pub type SpacedPair = (Seq<char>, Seq<char>, Seq<char>, Seq<char>, Seq<char>);

pub open spec fn spaced_pair_text(p: SpacedPair) -> Seq<char> {
    p.0 + p.1 + p.2 + p.3 + p.4
}

/// The whitespace parts of `p` are whitespace, the one between the tokens
/// not empty, and both tokens are numbers.
pub open spec fn well_spaced(p: SpacedPair) -> bool {
    &&& all_ws(p.0)
    &&& is_number(p.1)
    &&& all_ws(p.2)
    &&& p.2.len() > 0
    &&& is_number(p.3)
    &&& all_ws(p.4)
}

/// Coordinate pairs as they may be written, separated by commas.
pub open spec fn spaced_pairs_text(ps: Seq<SpacedPair>) -> Seq<char>
    decreases ps.len(),
{
    if ps.len() == 0 {
        seq![]
    } else if ps.len() == 1 {
        spaced_pair_text(ps[0])
    } else {
        spaced_pair_text(ps[0]) + seq![','] + spaced_pairs_text(ps.drop_first())
    }
}

/// The coordinate tokens of pairs as they may be written.
pub open spec fn spaced_tokens(ps: Seq<SpacedPair>) -> Seq<(Seq<char>, Seq<char>)> {
    ps.map_values(|p: SpacedPair| (p.1, p.3))
}

/// Whitespace `w1`, the keyword as written `k`, whitespace `w2`, then
/// `body` in parentheses, then whitespace `w3`.
pub open spec fn framed_text(
    w1: Seq<char>,
    k: Seq<char>,
    w2: Seq<char>,
    body: Seq<char>,
    w3: Seq<char>,
) -> Seq<char> {
    w1 + k + w2 + seq!['('] + body + seq![')'] + w3
}

/// Writing two numbers as a point and reading the text back gives the
/// same two numbers, character for character.
pub proof fn lemma_point_round_trip(x: Seq<char>, y: Seq<char>)
    requires
        is_number(x),
        is_number(y),
    ensures
        point_parts(point_text(x, y)) == Some((x, y)),
{
    let t = point_text(x, y);
    let d: int = 7 + x.len() as int;
    let e: int = d + 1;
    let f: int = e + y.len() as int;
    assert(t.len() == f + 1);
    assert(t.subrange(7, d) =~= x);
    assert(t.subrange(e, f) =~= y);
    assert(t[d] == ' ');
    assert(t[f] == ')');
    lemma_ws_end_stops(t, 0, 0);
    assert(keyword_at(t, 0, point_keyword()));
    lemma_ws_end_stops(t, 5, 6);
    assert(t[7] == x[0]);
    lemma_ws_end_stops(t, 7, 7);
    lemma_number_end(t, 7, x);
    assert(t[e] == y[0]);
    lemma_ws_end_stops(t, d, e);
    lemma_number_end(t, e, y);
    lemma_ws_end_stops(t, f, f);
    lemma_ws_end_stops(t, f + 1, f + 1);
}

/// Writing a line's coordinate pairs as a LINESTRING text and reading the
/// text back gives the same pairs, character for character.
pub proof fn lemma_linestring_round_trip(ps: Seq<(Seq<char>, Seq<char>)>)
    requires
        ps.len() >= 2,
        all_numbers(ps),
    ensures
        linestring_parts(linestring_text(ps)) == Some(ps),
{
    let t = linestring_text(ps);
    let body = pairs_text(ps);
    let n: int = 12 + body.len() as int;
    assert(t.len() == n + 1);
    assert(t.subrange(12, n) =~= body);
    assert(t[n] == ')');
    lemma_ws_end_stops(t, 0, 0);
    assert(keyword_at(t, 0, linestring_keyword()));
    lemma_ws_end_stops(t, 10, 11);
    assert(is_number(ps[0].0));
    assert(body =~= pair_text(ps[0]) + seq![',', ' '] + pairs_text(ps.drop_first()));
    assert(t[12] == body[0]);
    lemma_ws_end_stops(t, 12, 12);
    lemma_pairs_from_text(t, 12, ps);
    lemma_ws_end_stops(t, n + 1, n + 1);
}

/// Any `POINT` text is read: whatever whitespace stands around the tokens
/// (at least some between the two coordinates), whatever the case of the
/// keyword, the two number tokens come back.
pub proof fn lemma_point_text_accepted(
    w1: Seq<char>,
    k: Seq<char>,
    w2: Seq<char>,
    p: SpacedPair,
    w3: Seq<char>,
)
    requires
        all_ws(w1),
        spells(k, point_keyword()),
        all_ws(w2),
        well_spaced(p),
        all_ws(w3),
    ensures
        point_parts(framed_text(w1, k, w2, spaced_pair_text(p), w3)) == Some((p.1, p.3)),
{
    let body = spaced_pair_text(p);
    let t = framed_text(w1, k, w2, body, w3);
    let o: int = w1.len() + k.len() + w2.len() + 1int;
    lemma_frame(w1, k, w2, body, w3, point_keyword());
    lemma_spaced_pair(t, o, p);
    let f: int = o + p.0.len() + p.1.len() + p.2.len() + p.3.len();
    assert(closes_at(t, f));
}

/// Any `LINESTRING` text of two or more pairs is read: whatever whitespace
/// stands around the tokens and the commas (at least some between the two
/// coordinates of a pair), whatever the case of the keyword, the number
/// tokens come back in order.
pub proof fn lemma_linestring_text_accepted(
    w1: Seq<char>,
    k: Seq<char>,
    w2: Seq<char>,
    ps: Seq<SpacedPair>,
    w3: Seq<char>,
)
    requires
        all_ws(w1),
        spells(k, linestring_keyword()),
        all_ws(w2),
        ps.len() >= 2,
        forall|i: int| 0 <= i < ps.len() ==> well_spaced(#[trigger] ps[i]),
        all_ws(w3),
    ensures
        linestring_parts(framed_text(w1, k, w2, spaced_pairs_text(ps), w3)) == Some(
            spaced_tokens(ps),
        ),
{
    let body = spaced_pairs_text(ps);
    let t = framed_text(w1, k, w2, body, w3);
    let o: int = w1.len() + k.len() + w2.len() + 1int;
    lemma_frame(w1, k, w2, body, w3, linestring_keyword());
    lemma_spaced_pairs(t, o, ps);
}

proof fn lemma_sub(t: Seq<char>, i: int, s: Seq<char>, a: int, b: int)
    requires
        0 <= i,
        i + s.len() <= t.len(),
        t.subrange(i, i + s.len()) == s,
        0 <= a <= b <= s.len(),
    ensures
        t.subrange(i + a, i + b) == s.subrange(a, b),
{
    assert forall|m: int| 0 <= m < b - a implies t.subrange(i + a, i + b)[m] == s.subrange(a, b)[m] by {
        assert(t[i + a + m] == t.subrange(i, i + s.len())[a + m]);
    }
    assert(t.subrange(i + a, i + b) =~= s.subrange(a, b));
}

proof fn lemma_ws_run(t: Seq<char>, i: int, w: Seq<char>)
    requires
        0 <= i,
        i + w.len() <= t.len(),
        t.subrange(i, i + w.len()) == w,
        all_ws(w),
        i + w.len() == t.len() || !is_ws(t[i + w.len()]),
    ensures
        ws_end(t, i) == i + w.len(),
{
    assert forall|m: int| i <= m < i + w.len() implies is_ws(#[trigger] t[m]) by {
        assert(t[m] == t.subrange(i, i + w.len())[m - i]);
    }
    lemma_ws_end_stops(t, i, i + w.len());
}

/// The frame round the body of a text: the keyword is found, the body
/// starts after the opening parenthesis, and the text closes after it.
proof fn lemma_frame(
    w1: Seq<char>,
    k: Seq<char>,
    w2: Seq<char>,
    body: Seq<char>,
    w3: Seq<char>,
    kw: Seq<char>,
)
    requires
        all_ws(w1),
        spells(k, kw),
        kw.len() > 0,
        kw[0] == 'P' || kw[0] == 'L',
        all_ws(w2),
        all_ws(w3),
    ensures
        ({
            let t = framed_text(w1, k, w2, body, w3);
            let o: int = w1.len() + k.len() + w2.len() + 1int;
            &&& body_start(t, kw) == Some(ws_end(t, o))
            &&& o + body.len() < t.len()
            &&& t.subrange(o, o + body.len()) == body
            &&& t[o + body.len()] == ')'
            &&& ws_end(t, o + body.len() + 1) == t.len()
        }),
{
    let t = framed_text(w1, k, w2, body, w3);
    let a: int = w1.len() as int;
    let b: int = a + k.len();
    let o: int = b + w2.len() + 1;
    let c: int = o + body.len();
    assert(t.subrange(0, a) =~= w1);
    assert(t.subrange(a, b) =~= k);
    assert(t.subrange(b, b + w2.len()) =~= w2);
    assert(t.subrange(o, c) =~= body);
    assert(t.subrange(c + 1, t.len() as int) =~= w3);
    assert(t[b + w2.len()] == '(');
    assert(t[c] == ')');
    assert(t[a] == k[0]);
    assert(upper_code(k[0]) == kw[0] as u32);
    lemma_ws_run(t, 0, w1);
    assert forall|m: int| 0 <= m < kw.len() implies upper_code(#[trigger] t[a + m]) == kw[m] as u32 by {
        assert(t[a + m] == k[m]);
    }
    lemma_ws_run(t, b, w2);
    lemma_ws_run(t, c + 1, w3);
}

/// A pair as it may be written, followed by a comma or a closing
/// parenthesis, is read as its two tokens.
proof fn lemma_spaced_pair(t: Seq<char>, i: int, p: SpacedPair)
    requires
        well_spaced(p),
        0 <= i,
        i + spaced_pair_text(p).len() < t.len(),
        t.subrange(i, i + spaced_pair_text(p).len()) == spaced_pair_text(p),
        t[i + spaced_pair_text(p).len()] == ',' || t[i + spaced_pair_text(p).len()] == ')',
    ensures
        ({
            let c: int = i + p.0.len();
            let f: int = c + p.1.len() + p.2.len() + p.3.len();
            &&& ws_end(t, i) == c
            &&& pair_at(t, c) == Some((p.1, p.3, f))
            &&& ws_end(t, f) == i + spaced_pair_text(p).len()
        }),
{
    let s = spaced_pair_text(p);
    let o1: int = p.0.len() as int;
    let o2: int = o1 + p.1.len();
    let o3: int = o2 + p.2.len();
    let o4: int = o3 + p.3.len();
    let n: int = s.len() as int;
    assert(s.subrange(0, o1) =~= p.0);
    assert(s.subrange(o1, o2) =~= p.1);
    assert(s.subrange(o2, o3) =~= p.2);
    assert(s.subrange(o3, o4) =~= p.3);
    assert(s.subrange(o4, n) =~= p.4);
    lemma_sub(t, i, s, 0, o1);
    lemma_sub(t, i, s, o1, o2);
    lemma_sub(t, i, s, o2, o3);
    lemma_sub(t, i, s, o3, o4);
    lemma_sub(t, i, s, o4, n);
    assert(t[i + o1] == p.1[0]);
    assert(t[i + o2] == p.2[0]);
    assert(t[i + o3] == p.3[0]);
    if o4 < n {
        assert(t[i + o4] == p.4[0]);
    }
    lemma_ws_run(t, i, p.0);
    lemma_number_end(t, i + o1, p.1);
    lemma_ws_run(t, i + o2, p.2);
    lemma_number_end(t, i + o3, p.3);
    lemma_ws_run(t, i + o4, p.4);
}

/// Pairs as they may be written, followed by a closing parenthesis, are
/// read as their tokens.
proof fn lemma_spaced_pairs(t: Seq<char>, i: int, ps: Seq<SpacedPair>)
    requires
        ps.len() >= 1,
        forall|m: int| 0 <= m < ps.len() ==> well_spaced(#[trigger] ps[m]),
        0 <= i,
        i + spaced_pairs_text(ps).len() < t.len(),
        t.subrange(i, i + spaced_pairs_text(ps).len()) == spaced_pairs_text(ps),
        t[i + spaced_pairs_text(ps).len()] == ')',
    ensures
        pairs_from(t, ws_end(t, i)) == Some(
            (spaced_tokens(ps), i + spaced_pairs_text(ps).len() + 1),
        ),
    decreases ps.len(),
{
    let p = ps[0];
    assert(well_spaced(p));
    let s = spaced_pair_text(p);
    let all = spaced_pairs_text(ps);
    let g: int = i + s.len();
    if ps.len() == 1 {
        assert(all == s);
        lemma_spaced_pair(t, i, p);
        assert(spaced_tokens(ps) =~= seq![(p.1, p.3)]);
    } else {
        let rest = ps.drop_first();
        let r = spaced_pairs_text(rest);
        assert(all == s + seq![','] + r);
        lemma_sub(t, i, all, 0, s.len() as int);
        assert(all.subrange(0, s.len() as int) =~= s);
        assert(t[g] == all[s.len() as int]);
        lemma_spaced_pair(t, i, p);
        lemma_sub(t, i, all, s.len() + 1int, all.len() as int);
        assert(all.subrange(s.len() + 1int, all.len() as int) =~= r);
        assert forall|m: int| 0 <= m < rest.len() implies well_spaced(#[trigger] rest[m]) by {
            assert(rest[m] == ps[m + 1]);
        }
        lemma_spaced_pairs(t, g + 1, rest);
        assert(spaced_tokens(ps) =~= seq![(p.1, p.3)] + spaced_tokens(rest));
    }
}

/// Every token read from a `POINT` text is a number.
pub proof fn lemma_point_parts_are_numbers(t: Seq<char>)
    requires
        point_parts(t) is Some,
    ensures
        is_number((point_parts(t)->0).0),
        is_number((point_parts(t)->0).1),
{
    lemma_pair_tokens(t, body_start(t, point_keyword())->0);
}

/// Every token read from a `LINESTRING` text is a number.
pub proof fn lemma_linestring_parts_are_numbers(t: Seq<char>)
    requires
        linestring_parts(t) is Some,
    ensures
        all_numbers(linestring_parts(t)->0),
{
    lemma_pairs_from_tokens(t, body_start(t, linestring_keyword())->0);
}

proof fn lemma_ws_end_bounds(t: Seq<char>, i: int)
    requires
        0 <= i <= t.len(),
    ensures
        i <= ws_end(t, i) <= t.len(),
    decreases t.len() - i,
{
    if i < t.len() {
        lemma_ws_end_bounds(t, i + 1);
    }
}

proof fn lemma_digits_end_bounds(t: Seq<char>, i: int)
    requires
        0 <= i <= t.len(),
    ensures
        i <= digits_end(t, i) <= t.len(),
    decreases t.len() - i,
{
    if i < t.len() {
        lemma_digits_end_bounds(t, i + 1);
    }
}

proof fn lemma_number_end_bounds(t: Seq<char>, i: int)
    requires
        number_end(t, i) is Some,
    ensures
        0 <= i < number_end(t, i)->0 <= t.len(),
{
    let j = if 0 <= i < t.len() && is_sign(t[i]) { i + 1 } else { i };
    assert(0 <= j < t.len());
    lemma_digits_end_bounds(t, j + 1);
    let k = digits_end(t, j);
    if k < t.len() && t[k] == '.' {
        lemma_digits_end_bounds(t, k + 1);
    }
}

proof fn lemma_pair_at_bounds(t: Seq<char>, i: int)
    requires
        pair_at(t, i) is Some,
    ensures
        0 <= i < (pair_at(t, i)->0).2 <= t.len(),
{
    lemma_number_end_bounds(t, i);
    let d = number_end(t, i)->0;
    lemma_ws_end_bounds(t, d);
    lemma_number_end_bounds(t, ws_end(t, d));
}

proof fn lemma_ws_end_stops(t: Seq<char>, i: int, k: int)
    requires
        0 <= i <= k <= t.len(),
        forall|m: int| i <= m < k ==> is_ws(#[trigger] t[m]),
        k == t.len() || !is_ws(t[k]),
    ensures
        ws_end(t, i) == k,
    decreases k - i,
{
    if i < k {
        lemma_ws_end_stops(t, i + 1, k);
    }
}

proof fn lemma_digits_end_stops(t: Seq<char>, i: int, k: int)
    requires
        0 <= i <= k <= t.len(),
        forall|m: int| i <= m < k ==> is_digit(#[trigger] t[m]),
        k == t.len() || !is_digit(t[k]),
    ensures
        digits_end(t, i) == k,
    decreases k - i,
{
    if i < k {
        lemma_digits_end_stops(t, i + 1, k);
    }
}

proof fn lemma_digits_end_all(t: Seq<char>, i: int)
    requires
        0 <= i <= t.len(),
    ensures
        forall|m: int| i <= m < digits_end(t, i) ==> is_digit(#[trigger] t[m]),
    decreases t.len() - i,
{
    if i < t.len() && is_digit(t[i]) {
        lemma_digits_end_all(t, i + 1);
    }
}

/// A number that stands at `i` and is not followed by a digit or a point is
/// read whole.
proof fn lemma_number_end(t: Seq<char>, i: int, x: Seq<char>)
    requires
        0 <= i,
        i + x.len() <= t.len(),
        t.subrange(i, i + x.len()) == x,
        is_number(x),
        i + x.len() == t.len() || !(is_digit(t[i + x.len()]) || t[i + x.len()] == '.'),
    ensures
        number_end(t, i) == Some(i + x.len()),
{
    let n = i + x.len();
    assert(t[i] == x[0]);
    let j = if is_sign(x[0]) { i + 1 } else { i };
    let b = unsigned_part(x);
    assert(forall|m: int| j <= m < n ==> t[m] == #[trigger] b[m - j]);
    if exists|p: int| 0 <= p < b.len() && b[p] == '.' {
        let p = choose|p: int| 0 <= p < b.len() && b[p] == '.';
        assert forall|m: int| j <= m < j + p implies is_digit(#[trigger] t[m]) by {
            assert(b[m - j] == t[m]);
            if b[m - j] == '.' {
                assert(b[p] != '.');
            }
        }
        lemma_digits_end_stops(t, j, j + p);
        assert forall|m: int| j + p + 1 <= m < n implies is_digit(#[trigger] t[m]) by {
            assert(b[m - j] == t[m]);
            if b[m - j] == '.' {
                assert(b[m - j] != '.');
            }
        }
        lemma_digits_end_stops(t, j + p + 1, n);
        assert(b[0] != '.');
    } else {
        assert forall|m: int| j <= m < n implies is_digit(#[trigger] t[m]) by {
            assert(b[m - j] == t[m]);
        }
        lemma_digits_end_stops(t, j, n);
    }
}

/// What the grammar reads as a number is one.
proof fn lemma_number_token(t: Seq<char>, i: int)
    requires
        number_end(t, i) is Some,
    ensures
        is_number(t.subrange(i, number_end(t, i)->0)),
{
    lemma_number_end_bounds(t, i);
    let e = number_end(t, i)->0;
    let j = if 0 <= i < t.len() && is_sign(t[i]) { i + 1 } else { i };
    let k = digits_end(t, j);
    lemma_digits_end_all(t, j);
    lemma_digits_end_bounds(t, j);
    let s = t.subrange(i, e);
    let b = t.subrange(j, e);
    if j == i + 1 {
        assert(unsigned_part(s) =~= b);
    } else {
        assert(unsigned_part(s) =~= b);
    }
    if k < t.len() && t[k] == '.' {
        lemma_digits_end_all(t, k + 1);
        lemma_digits_end_bounds(t, k + 1);
        assert forall|a: int, c: int|
            #![trigger b[a], b[c]]
            0 <= a < c < b.len() && b[a] == '.' implies b[c] != '.' by {
            if a + j != k {
                assert(is_digit(t[a + j]));
            }
            assert(is_digit(t[c + j]));
        }
    }
}

proof fn lemma_pair_tokens(t: Seq<char>, i: int)
    requires
        pair_at(t, i) is Some,
    ensures
        is_number((pair_at(t, i)->0).0),
        is_number((pair_at(t, i)->0).1),
{
    lemma_number_token(t, i);
    lemma_number_token(t, ws_end(t, number_end(t, i)->0));
}

proof fn lemma_pairs_from_tokens(t: Seq<char>, i: int)
    requires
        pairs_from(t, i) is Some,
    ensures
        all_numbers((pairs_from(t, i)->0).0),
    decreases t.len() - i,
{
    lemma_pair_tokens(t, i);
    lemma_pair_at_bounds(t, i);
    let f = (pair_at(t, i)->0).2;
    let g = ws_end(t, f);
    lemma_ws_end_bounds(t, f);
    let x = (pair_at(t, i)->0).0;
    let y = (pair_at(t, i)->0).1;
    let ps = (pairs_from(t, i)->0).0;
    if g < t.len() && t[g] == ')' {
        assert(ps == seq![(x, y)]);
    } else {
        let j = ws_end(t, g + 1);
        lemma_ws_end_bounds(t, g + 1);
        lemma_pairs_from_tokens(t, j);
        let rest = (pairs_from(t, j)->0).0;
        assert(ps == seq![(x, y)] + rest);
        assert forall|k: int| 0 <= k < ps.len() implies is_number(#[trigger] ps[k].0) && is_number(
            ps[k].1,
        ) by {
            if k > 0 {
                assert(ps[k] == rest[k - 1]);
            }
        }
    }
}

pub(crate) proof fn lemma_pairs_text_last(s: Seq<(Seq<char>, Seq<char>)>)
    requires
        s.len() >= 2,
    ensures
        pairs_text(s) == pairs_text(s.drop_last()) + seq![',', ' '] + pair_text(s.last()),
    decreases s.len(),
{
    let r = s.drop_first();
    if s.len() == 2 {
        assert(r.len() == 1 && r[0] == s.last());
        assert(s.drop_last().len() == 1 && s.drop_last()[0] == s[0]);
        assert(pairs_text(r) == pair_text(s.last()));
        assert(pairs_text(s.drop_last()) == pair_text(s[0]));
        assert(pairs_text(s) == pair_text(s[0]) + seq![',', ' '] + pairs_text(r));
        assert(pairs_text(s) =~= pairs_text(s.drop_last()) + seq![',', ' '] + pair_text(s.last()));
    } else {
        lemma_pairs_text_last(r);
        assert(r.drop_last() =~= s.drop_last().drop_first());
        assert(s.drop_last()[0] == s[0]);
        assert(r.last() == s.last());
        assert(pairs_text(s) =~= pairs_text(s.drop_last()) + seq![',', ' '] + pair_text(s.last()));
    }
}

/// Reading the text of a list of pairs that ends at a closing parenthesis
/// gives the pairs back.
proof fn lemma_pairs_from_text(t: Seq<char>, i: int, ps: Seq<(Seq<char>, Seq<char>)>)
    requires
        ps.len() >= 1,
        all_numbers(ps),
        0 <= i,
        i + pairs_text(ps).len() < t.len(),
        t.subrange(i, i + pairs_text(ps).len()) == pairs_text(ps),
        t[i + pairs_text(ps).len()] == ')',
    ensures
        pairs_from(t, i) == Some((ps, i + pairs_text(ps).len() + 1)),
    decreases ps.len(),
{
    let x = ps[0].0;
    let y = ps[0].1;
    assert(is_number(x) && is_number(y));
    let pt = pair_text(ps[0]);
    let all = pairs_text(ps);
    assert(all.subrange(0, pt.len() as int) =~= pt);
    let d: int = i + x.len() as int;
    let e: int = d + 1;
    let f: int = e + y.len() as int;
    assert forall|m: int| 0 <= m < pt.len() implies t[i + m] == #[trigger] pt[m] by {
        assert(t[i + m] == t.subrange(i, i + all.len())[m]);
    }
    assert(t.subrange(i, d) =~= x) by {
        assert forall|m: int| 0 <= m < x.len() implies t.subrange(i, d)[m] == x[m] by {
            assert(pt[m] == x[m]);
        }
    }
    assert(t[d] == pt[x.len() as int]);
    assert(t[e] == pt[x.len() + 1int]);
    assert(t.subrange(e, f) =~= y) by {
        assert forall|m: int| 0 <= m < y.len() implies t.subrange(e, f)[m] == y[m] by {
            assert(pt[x.len() + 1int + m] == y[m]);
            assert(t[e + m] == pt[x.len() + 1int + m]);
        }
    }
    lemma_number_end(t, i, x);
    lemma_ws_end_stops(t, d, e);
    if ps.len() == 1 {
        assert(all =~= pt);
        assert(t[f] == ')');
    } else {
        assert(all =~= pt + seq![',', ' '] + pairs_text(ps.drop_first()));
        assert(t[f] == all[pt.len() as int]);
        assert(t[f] == ',');
    }
    lemma_number_end(t, e, y);
    lemma_ws_end_stops(t, f, f);
    if ps.len() == 1 {
        assert(pairs_from(t, i) == Some((seq![(x, y)], f + 1)));
        assert(ps =~= seq![(x, y)]);
    } else {
        let rest = ps.drop_first();
        let rt = pairs_text(rest);
        let j: int = f + 2;
        assert(all =~= pt + seq![',', ' '] + rt);
        assert(t[f] == ',');
        assert(t[f + 1] == all[pt.len() + 1int]);
        assert(t.subrange(j, j + rt.len()) =~= rt) by {
            assert forall|m: int| 0 <= m < rt.len() implies t.subrange(j, j + rt.len())[m] == rt[m] by {
                assert(t[j + m] == t.subrange(i, i + all.len())[pt.len() + 2int + m]);
            }
        }
        assert(all_numbers(rest)) by {
            assert forall|k: int| 0 <= k < rest.len() implies is_number(#[trigger] rest[k].0) && is_number(rest[k].1) by {
                assert(rest[k] == ps[k + 1]);
            }
        }
        if rest.len() == 1 {
            assert(rt =~= pair_text(rest[0]));
        }
        assert(rt.len() > 0 && rt[0] == rest[0].0[0]);
        lemma_ws_end_stops(t, f + 1, j);
        lemma_pairs_from_text(t, j, rest);
        assert(seq![(x, y)] + rest =~= ps);
    }
}

} // verus!
