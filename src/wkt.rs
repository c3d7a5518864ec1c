//! Reading and writing the text form of points and lines. The parser hands
//! back the coordinate tokens as text, each one a number by the grammar:
//! turning them into numeric values is left to the caller.
use crate::grammar::{
    all_numbers, body_start, closes_at, digits_end, is_number, is_ws, keyword_at,
    lemma_linestring_parts_are_numbers, lemma_pairs_text_last, lemma_point_parts_are_numbers,
    linestring_keyword, linestring_parts, linestring_text, number_end, pair_at, pairs_from,
    pairs_text, point_keyword, point_parts, point_text, upper_code, ws_end,
};
use vstd::prelude::*;

verus! {

/// Why a text was refused.
#[derive(Clone, Copy, PartialEq, Eq, Debug, Structural)]
pub enum WktError {
    /// The text does not follow the grammar.
    InvalidFormat,
    /// The text holds no x coordinate.
    MissingX,
    /// The text holds no y coordinate.
    MissingY,
    /// The x token cannot be turned into a coordinate value.
    InvalidX,
    /// The y token cannot be turned into a coordinate value.
    InvalidY,
}

impl WktError {
    /// A sentence that says what went wrong.
    pub fn message(&self) -> (r: &'static str)
        ensures
            *self == WktError::InvalidFormat ==> r@ == "Invalid WKT format"@,
            *self == WktError::MissingX ==> r@ == "Missing X coordinate"@,
            *self == WktError::MissingY ==> r@ == "Missing Y coordinate"@,
            *self == WktError::InvalidX ==> r@ == "Invalid X value"@,
            *self == WktError::InvalidY ==> r@ == "Invalid Y value"@,
    {
        match self {
            WktError::InvalidFormat => "Invalid WKT format",
            WktError::MissingX => "Missing X coordinate",
            WktError::MissingY => "Missing Y coordinate",
            WktError::InvalidX => "Invalid X value",
            WktError::InvalidY => "Invalid Y value",
        }
    }
}

/// The coordinate tokens of a list of pairs of texts, as sequences.
pub open spec fn pairs_view(v: Seq<(String, String)>) -> Seq<(Seq<char>, Seq<char>)> {
    v.map_values(|p: (String, String)| (p.0@, p.1@))
}

/// `pre` put in front of the pairs of a parse result.
pub open spec fn prepend_pairs(
    pre: Seq<(Seq<char>, Seq<char>)>,
    o: Option<(Seq<(Seq<char>, Seq<char>)>, int)>,
) -> Option<(Seq<(Seq<char>, Seq<char>)>, int)> {
    match o {
        None => None,
        Some((ps, h)) => Some((pre + ps, h)),
    }
}

fn ws(c: char) -> (r: bool)
    ensures
        r == is_ws(c),
{
    ('\t' <= c && c <= '\r') || c == ' ' || c == '\u{85}' || c == '\u{A0}' || c == '\u{1680}'
    || ('\u{2000}' <= c && c <= '\u{200A}') || c == '\u{2028}' || c == '\u{2029}'
    || c == '\u{202F}' || c == '\u{205F}' || c == '\u{3000}'
}

/// The characters of a text, in order.
fn chars_of(text: &str) -> (r: Vec<char>)
    ensures
        r@ == text@,
{
    let mut out: Vec<char> = Vec::new();
    for c in it: text.chars()
        invariant
            out@ == it.seq().subrange(0, it.index() as int),
            it.seq() == text@,
    {
        out.push(c);
    }
    out
}

fn skip_ws(t: &Vec<char>, i: usize) -> (r: usize)
    requires
        i <= t.len(),
    ensures
        r == ws_end(t@, i as int),
        i <= r <= t.len(),
{
    let mut j = i;
    while j < t.len() && ws(t[j])
        invariant
            i <= j <= t.len(),
            ws_end(t@, i as int) == ws_end(t@, j as int),
        decreases t.len() - j,
    {
        j = j + 1;
    }
    j
}

fn skip_digits(t: &Vec<char>, i: usize) -> (r: usize)
    requires
        i <= t.len(),
    ensures
        r == digits_end(t@, i as int),
        i <= r <= t.len(),
{
    let mut j = i;
    while j < t.len() && '0' <= t[j] && t[j] <= '9'
        invariant
            i <= j <= t.len(),
            digits_end(t@, i as int) == digits_end(t@, j as int),
        decreases t.len() - j,
    {
        j = j + 1;
    }
    j
}

fn scan_number(t: &Vec<char>, i: usize) -> (r: Option<usize>)
    requires
        i <= t.len(),
    ensures
        match r {
            Some(e) => number_end(t@, i as int) == Some(e as int) && i < e <= t.len(),
            None => number_end(t@, i as int) is None,
        },
{
    let j = if i < t.len() && (t[i] == '+' || t[i] == '-') {
        i + 1
    } else {
        i
    };
    let k = skip_digits(t, j);
    if k == j {
        None
    } else if k < t.len() && t[k] == '.' {
        Some(skip_digits(t, k + 1))
    } else {
        Some(k)
    }
}

fn upper(c: char) -> (r: u32)
    ensures
        r == upper_code(c),
{
    if 'a' <= c && c <= 'z' {
        c as u32 - 32
    } else if c == '\u{17F}' {
        'S' as u32
    } else if c == '\u{212A}' {
        'K' as u32
    } else {
        c as u32
    }
}

fn keyword_matches(t: &Vec<char>, i: usize, kw: &Vec<char>) -> (r: bool)
    requires
        i <= t.len(),
    ensures
        r == keyword_at(t@, i as int, kw@),
{
    if kw.len() > t.len() - i {
        return false;
    }
    let mut k: usize = 0;
    while k < kw.len()
        invariant
            k <= kw.len(),
            i + kw.len() <= t.len(),
            forall|m: int| 0 <= m < k ==> upper_code(#[trigger] t@[i + m]) == kw@[m] as u32,
        decreases kw.len() - k,
    {
        if upper(t[i + k]) != kw[k] as u32 {
            return false;
        }
        k = k + 1;
    }
    true
}

fn scan_pair(t: &Vec<char>, i: usize) -> (r: Option<(usize, usize, usize)>)
    requires
        i <= t.len(),
    ensures
        match r {
            Some((d, e, f)) => {
                &&& i < d < e < f <= t.len()
                &&& pair_at(t@, i as int) == Some(
                    (t@.subrange(i as int, d as int), t@.subrange(e as int, f as int), f as int),
                )
            },
            None => pair_at(t@, i as int) is None,
        },
{
    match scan_number(t, i) {
        None => None,
        Some(d) => {
            let e = skip_ws(t, d);
            if e == d {
                None
            } else {
                match scan_number(t, e) {
                    None => None,
                    Some(f) => Some((d, e, f)),
                }
            }
        },
    }
}

fn scan_body_start(t: &Vec<char>, kw: &Vec<char>) -> (r: Option<usize>)
    ensures
        match r {
            Some(c) => body_start(t@, kw@) == Some(c as int) && c <= t.len(),
            None => body_start(t@, kw@) is None,
        },
{
    let a = skip_ws(t, 0);
    if !keyword_matches(t, a, kw) {
        return None;
    }
    let b = skip_ws(t, a + kw.len());
    if b < t.len() && t[b] == '(' {
        Some(skip_ws(t, b + 1))
    } else {
        None
    }
}

fn scan_close(t: &Vec<char>, i: usize) -> (r: bool)
    requires
        i <= t.len(),
    ensures
        r == closes_at(t@, i as int),
{
    let g = skip_ws(t, i);
    g < t.len() && t[g] == ')' && skip_ws(t, g + 1) == t.len()
}

/// Reads the coordinate tokens of a `POINT (x y)` text.
pub fn parse_point(text: &str) -> (r: Result<(String, String), WktError>)
    ensures
        match point_parts(text@) {
            Some((x, y)) => r matches Ok((rx, ry)) && rx@ == x && ry@ == y && is_number(x)
                && is_number(y),
            None => r == Err::<(String, String), WktError>(WktError::InvalidFormat),
        },
{
    let t = chars_of(text);
    proof {
        if point_parts(text@) is Some {
            lemma_point_parts_are_numbers(text@);
        }
    }
    let kw = vec!['P', 'O', 'I', 'N', 'T'];
    assert(kw@ == point_keyword());
    match scan_body_start(&t, &kw) {
        None => Err(WktError::InvalidFormat),
        Some(c) => match scan_pair(&t, c) {
            None => Err(WktError::InvalidFormat),
            Some((d, e, f)) => {
                if scan_close(&t, f) {
                    let x = String::from_str(text.substring_char(c, d));
                    let y = String::from_str(text.substring_char(e, f));
                    Ok((x, y))
                } else {
                    Err(WktError::InvalidFormat)
                }
            },
        },
    }
}

/// Writes the text of a point from the text of its two coordinates.
pub fn point_to_wkt(x: &str, y: &str) -> (r: String)
    ensures
        r@ == point_text(x@, y@),
{
    let mut out = String::from_str("POINT (");
    out.append(x);
    out.append(" ");
    out.append(y);
    out.append(")");
    proof {
        reveal_strlit("POINT (");
        reveal_strlit(" ");
        reveal_strlit(")");
        assert(out@ =~= point_text(x@, y@));
    }
    out
}

/// Reads the coordinate tokens of a `LINESTRING (x1 y1, x2 y2, ...)` text,
/// in order.
pub fn parse_linestring(text: &str) -> (r: Result<Vec<(String, String)>, WktError>)
    ensures
        match linestring_parts(text@) {
            Some(ps) => r matches Ok(v) && pairs_view(v@) == ps && all_numbers(ps),
            None => r == Err::<Vec<(String, String)>, WktError>(WktError::InvalidFormat),
        },
{
    let t = chars_of(text);
    proof {
        if linestring_parts(text@) is Some {
            lemma_linestring_parts_are_numbers(text@);
        }
    }
    let kw = vec!['L', 'I', 'N', 'E', 'S', 'T', 'R', 'I', 'N', 'G'];
    assert(kw@ == linestring_keyword());
    let c = match scan_body_start(&t, &kw) {
        None => return Err(WktError::InvalidFormat),
        Some(c) => c,
    };
    let mut out: Vec<(String, String)> = Vec::new();
    let mut i = c;
    let end: usize;
    loop
        invariant_except_break
            pairs_from(t@, c as int) == prepend_pairs(pairs_view(out@), pairs_from(t@, i as int)),
        invariant
            i <= t.len(),
            t@ == text@,
            body_start(t@, linestring_keyword()) == Some(c as int),
        ensures
            end <= t.len(),
            pairs_from(t@, c as int) == Some((pairs_view(out@), end as int)),
        decreases t.len() - i,
    {
        match scan_pair(&t, i) {
            None => {
                return Err(WktError::InvalidFormat);
            },
            Some((d, e, f)) => {
                let x = String::from_str(text.substring_char(i, d));
                let y = String::from_str(text.substring_char(e, f));
                let ghost before = out@;
                out.push((x, y));
                assert(pairs_view(out@) =~= pairs_view(before) + seq![(x@, y@)]);
                assert(pairs_view(before) + (seq![(x@, y@)] + seq![]) =~= pairs_view(out@) + seq![]);
                let g = skip_ws(&t, f);
                if g < t.len() && t[g] == ')' {
                    end = g + 1;
                    break;
                } else if g < t.len() && t[g] == ',' {
                    i = skip_ws(&t, g + 1);
                } else {
                    return Err(WktError::InvalidFormat);
                }
            },
        }
    }
    if out.len() >= 2 && skip_ws(&t, end) == t.len() {
        Ok(out)
    } else {
        Err(WktError::InvalidFormat)
    }
}

/// Writes the text of a line from the text of its coordinate pairs.
pub fn linestring_to_wkt(pairs: &Vec<(String, String)>) -> (r: String)
    ensures
        r@ == linestring_text(pairs_view(pairs@)),
{
    let ghost pv = pairs_view(pairs@);
    let ghost head: Seq<char> = seq!['L', 'I', 'N', 'E', 'S', 'T', 'R', 'I', 'N', 'G', ' ', '('];
    let mut out = String::from_str("LINESTRING (");
    proof {
        reveal_strlit("LINESTRING (");
        assert(out@ =~= head + pairs_text(pv.take(0)));
    }
    for k in 0..pairs.len()
        invariant
            pv == pairs_view(pairs@),
            head == seq!['L', 'I', 'N', 'E', 'S', 'T', 'R', 'I', 'N', 'G', ' ', '('],
            out@ == head + pairs_text(pv.take(k as int)),
    {
        let ghost before = out@;
        if k > 0 {
            out.append(", ");
        }
        out.append(pairs[k].0.as_str());
        out.append(" ");
        out.append(pairs[k].1.as_str());
        proof {
            reveal_strlit(", ");
            reveal_strlit(" ");
            let s = pv.take(k + 1);
            assert(pv[k as int] == (pairs@[k as int].0@, pairs@[k as int].1@));
            if k == 0 {
                assert(s.len() == 1);
                assert(out@ =~= head + pairs_text(s));
            } else {
                lemma_pairs_text_last(s);
                assert(s.drop_last() =~= pv.take(k as int));
                assert(s.last() == pv[k as int]);
                assert(out@ =~= head + pairs_text(s));
            }
        }
    }
    out.append(")");
    proof {
        reveal_strlit(")");
        assert(pv.take(pairs.len() as int) =~= pv);
        assert(out@ =~= linestring_text(pv));
    }
    out
}

} // verus!
