//! The text format of map files.
//!
//! A map file holds one polygon ("mesh") per line. A line is cut at every
//! single space character; its first token is the declared number of points,
//! written as an unsigned decimal, and the tokens that follow come in pairs,
//! the x and the y coordinate of one point. Reading stops early at the first
//! pair whose x token is empty. The coordinates themselves are decimal
//! fractions: this module finds where they stand in the line and leaves their
//! numeric reading to the caller.
use vstd::prelude::*;

verus! {

/// A half-open range `[start, end)` of byte positions in a line of text.
#[derive(Clone, Copy, Debug, PartialEq, Eq)]
pub struct Span {
    pub start: usize,
    pub end: usize,
}

/// Where the two coordinate tokens of one point stand in its line.
#[derive(Clone, Copy, Debug, PartialEq, Eq)]
pub struct PointTokens {
    pub x: Span,
    pub y: Span,
}

/// The byte that separates tokens.
pub const SEPARATOR: u8 = 0x20;

/// The bytes that a span covers.
pub open spec fn span_bytes(s: Seq<u8>, sp: Span) -> Seq<u8> {
    s.subrange(sp.start as int, sp.end as int)
}

/// `spans` is the sequence of pieces that cutting `s` at every separator
/// yields, empty pieces included, in order.
pub open spec fn splits_at_separators(s: Seq<u8>, spans: Seq<Span>) -> bool {
    &&& spans.len() >= 1
    &&& spans[0].start == 0
    &&& spans.last().end == s.len()
    &&& forall|j: int| 0 <= j < spans.len() ==> #[trigger] spans[j].start <= spans[j].end <= s.len()
    &&& forall|j: int, k: int|
        #![trigger s[k], spans[j]]
        0 <= j < spans.len() && spans[j].start <= k < spans[j].end ==> s[k] != SEPARATOR
    &&& forall|j: int|
        0 <= j < spans.len() - 1 ==> {
            &&& #[trigger] spans[j].end < s.len()
            &&& s[spans[j].end as int] == SEPARATOR
            &&& spans[j + 1].start == spans[j].end + 1
        }
}

/// The pieces of `s` between separators.
pub open spec fn separated_tokens(s: Seq<u8>) -> Seq<Span> {
    choose|spans: Seq<Span>| splits_at_separators(s, spans)
}

/// Two cuttings of the same text at its separators agree on their `j`-th piece.
proof fn lemma_split_agree(s: Seq<u8>, a: Seq<Span>, b: Seq<Span>, j: int)
    requires
        splits_at_separators(s, a),
        splits_at_separators(s, b),
        0 <= j < a.len(),
        j < b.len(),
    ensures
        a[j] == b[j],
    decreases j,
{
    if j > 0 {
        lemma_split_agree(s, a, b, j - 1);
        assert(a[j - 1].end < s.len());
    }
    assert(a[j].start == b[j].start);
    assert(a[j].start <= a[j].end <= s.len());
    assert(b[j].start <= b[j].end <= s.len());
    if a[j].end < b[j].end {
        if j < a.len() - 1 {
            assert(s[a[j].end as int] == SEPARATOR);
            assert(b[j].start <= a[j].end < b[j].end);
        }
    } else if b[j].end < a[j].end {
        if j < b.len() - 1 {
            assert(s[b[j].end as int] == SEPARATOR);
            assert(a[j].start <= b[j].end < a[j].end);
        }
    }
}

/// Two cuttings of the same text at its separators are the same.
pub proof fn lemma_split_unique(s: Seq<u8>, a: Seq<Span>, b: Seq<Span>)
    requires
        splits_at_separators(s, a),
        splits_at_separators(s, b),
    ensures
        a == b,
{
    if a.len() < b.len() {
        let k = a.len() - 1;
        lemma_split_agree(s, a, b, k);
        assert(b[k].end < s.len());
    } else if b.len() < a.len() {
        let k = b.len() - 1;
        lemma_split_agree(s, a, b, k);
        assert(a[k].end < s.len());
    }
    assert forall|j: int| 0 <= j < a.len() implies a[j] == b[j] by {
        lemma_split_agree(s, a, b, j);
    }
    assert(a =~= b);
}

/// The pieces of the first `k` bytes of `s`, built one byte at a time.
spec fn split_prefix(s: Seq<u8>, k: int) -> Seq<Span>
    decreases k,
{
    if k <= 0 {
        seq![Span { start: 0, end: 0 }]
    } else {
        let prev = split_prefix(s, k - 1);
        if s[k - 1] == SEPARATOR {
            prev.push(Span { start: k as usize, end: k as usize })
        } else {
            prev.update(prev.len() - 1, Span { start: prev.last().start, end: k as usize })
        }
    }
}

proof fn lemma_split_prefix(s: Seq<u8>, k: int)
    requires
        0 <= k <= s.len() <= usize::MAX,
    ensures
        splits_at_separators(s.take(k), split_prefix(s, k)),
    decreases k,
{
    if k > 0 {
        lemma_split_prefix(s, k - 1);
        let prev = split_prefix(s, k - 1);
        let cur = split_prefix(s, k);
        let a = s.take(k - 1);
        let b = s.take(k);
        assert forall|i: int| 0 <= i < k - 1 implies a[i] == b[i] by {}
        if s[k - 1] == SEPARATOR {
            assert forall|j: int, i: int|
                #![trigger b[i], cur[j]]
                0 <= j < cur.len() && cur[j].start <= i < cur[j].end implies b[i] != SEPARATOR by {
                assert(cur[j] == prev[j]);
                assert(prev[j].start <= i < prev[j].end);
                assert(a[i] != SEPARATOR);
            }
            assert forall|j: int| 0 <= j < cur.len() - 1 implies {
                &&& #[trigger] cur[j].end < b.len()
                &&& b[cur[j].end as int] == SEPARATOR
                &&& cur[j + 1].start == cur[j].end + 1
            } by {
                if j < prev.len() - 1 {
                    assert(a[prev[j].end as int] == SEPARATOR);
                }
            }
        } else {
            assert forall|j: int, i: int|
                #![trigger b[i], cur[j]]
                0 <= j < cur.len() && cur[j].start <= i < cur[j].end implies b[i] != SEPARATOR by {
                if i < k - 1 {
                    assert(prev[j].start <= i < prev[j].end);
                    assert(a[i] != SEPARATOR);
                }
            }
            assert forall|j: int| 0 <= j < cur.len() - 1 implies {
                &&& #[trigger] cur[j].end < b.len()
                &&& b[cur[j].end as int] == SEPARATOR
                &&& cur[j + 1].start == cur[j].end + 1
            } by {
                assert(cur[j] == prev[j]);
                assert(a[prev[j].end as int] == SEPARATOR);
            }
        }
        assert(splits_at_separators(b, cur));
    }
}

/// Every line of a length that fits in `usize` can be cut at its
/// separators.
pub proof fn lemma_split_exists(s: Seq<u8>)
    requires
        s.len() <= usize::MAX,
    ensures
        splits_at_separators(s, separated_tokens(s)),
{
    lemma_split_prefix(s, s.len() as int);
    assert(s.take(s.len() as int) =~= s);
}

/// Cuts `line` at every separator, as `str::split(" ")` does: `k`
/// separators give `k + 1` pieces, some of them possibly empty.
pub fn split_at_separators(line: &[u8]) -> (spans: Vec<Span>)
    ensures
        splits_at_separators(line@, spans@),
        spans@ == separated_tokens(line@),
{
    let mut spans: Vec<Span> = Vec::new();
    let mut start: usize = 0;
    let mut i: usize = 0;
    while i < line.len()
        invariant
            0 <= start <= i <= line@.len(),
            spans@.len() == 0 ==> start == 0,
            spans@.len() > 0 ==> spans@[0].start == 0 && spans@.last().end + 1 == start,
            forall|j: int| 0 <= j < spans@.len() ==> #[trigger] spans@[j].start <= spans@[j].end < i,
            forall|j: int| 0 <= j < spans@.len() ==> line@[#[trigger] spans@[j].end as int] == SEPARATOR,
            forall|j: int| 0 <= j < spans@.len() - 1 ==> #[trigger] spans@[j + 1].start == spans@[j].end + 1,
            forall|j: int, k: int|
                #![trigger line@[k], spans@[j]]
                0 <= j < spans@.len() && spans@[j].start <= k < spans@[j].end ==> line@[k] != SEPARATOR,
            forall|k: int| start <= k < i ==> line@[k] != SEPARATOR,
        decreases line@.len() - i,
    {
        if line[i] == SEPARATOR {
            spans.push(Span { start, end: i });
            start = i + 1;
        }
        i = i + 1;
    }
    spans.push(Span { start, end: line.len() });
    proof {
        let sp = spans@;
        assert forall|j: int| 0 <= j < sp.len() - 1 implies {
            &&& #[trigger] sp[j].end < line@.len()
            &&& line@[sp[j].end as int] == SEPARATOR
            &&& sp[j + 1].start == sp[j].end + 1
        } by {
            assert(line@[sp[j].end as int] == SEPARATOR);
        }
        assert(splits_at_separators(line@, sp));
        lemma_split_unique(line@, sp, separated_tokens(line@));
    }
    spans
}

/// An ASCII decimal digit.
pub open spec fn is_digit(b: u8) -> bool {
    0x30 <= b <= 0x39
}

/// The value of a string of decimal digits, most significant first.
pub open spec fn digits_value(s: Seq<u8>) -> nat
    decreases s.len(),
{
    if s.len() == 0 {
        0
    } else {
        digits_value(s.drop_last()) * 10 + (s.last() - 0x30) as nat
    }
}

/// The digits of an unsigned decimal: the text without one leading `+`.
pub open spec fn unsigned_digits(s: Seq<u8>) -> Seq<u8> {
    if s.len() > 0 && s[0] == 0x2b {
        s.drop_first()
    } else {
        s
    }
}

/// What `str::parse::<usize>` gives for `s`: an optional `+`, then one or
/// more decimal digits whose value fits in `usize`; anything else fails.
pub open spec fn usize_literal_value(s: Seq<u8>) -> Option<nat> {
    let d = unsigned_digits(s);
    if d.len() > 0 && (forall|i: int| 0 <= i < d.len() ==> is_digit(#[trigger] d[i])) && digits_value(d)
        <= usize::MAX {
        Some(digits_value(d))
    } else {
        None
    }
}

proof fn lemma_digits_prefix(s: Seq<u8>, k: int)
    requires
        0 <= k <= s.len(),
        forall|i: int| 0 <= i < s.len() ==> is_digit(#[trigger] s[i]),
    ensures
        digits_value(s.take(k)) <= digits_value(s),
    decreases s.len() - k,
{
    if k < s.len() {
        lemma_digits_prefix(s, k + 1);
        assert(s.take(k + 1).drop_last() =~= s.take(k));
    } else {
        assert(s.take(k) =~= s);
    }
}

/// Reads the unsigned decimal that `span` covers in `line`, as
/// `str::parse::<usize>` does.
pub fn parse_usize_token(line: &[u8], span: Span) -> (value: Option<usize>)
    requires
        span.start <= span.end <= line@.len(),
    ensures
        match value {
            Some(v) => usize_literal_value(span_bytes(line@, span)) == Some(v as nat),
            None => usize_literal_value(span_bytes(line@, span)) is None,
        },
{
    let ghost s = span_bytes(line@, span);
    let mut i = span.start;
    if i < span.end && line[i] == 0x2b {
        i = i + 1;
    }
    let first = i;
    let ghost d = unsigned_digits(s);
    assert(d =~= line@.subrange(first as int, span.end as int));
    if first == span.end {
        return None;
    }
    let mut value: usize = 0;
    while i < span.end
        invariant
            span.start <= first <= i <= span.end <= line@.len(),
            d =~= line@.subrange(first as int, span.end as int),
            d == unsigned_digits(span_bytes(line@, span)),
            forall|k: int| 0 <= k < i - first ==> is_digit(#[trigger] d[k]),
            value as nat == digits_value(d.take(i - first)),
        decreases span.end - i,
    {
        let b = line[i];
        if b < 0x30 || b > 0x39 {
            assert(!is_digit(d[i - first]));
            return None;
        }
        assert(d.take(i - first + 1).drop_last() =~= d.take(i - first));
        let digit: usize = (b - 0x30) as usize;
        match value.checked_mul(10) {
            Some(v10) => match v10.checked_add(digit) {
                Some(v) => {
                    value = v;
                },
                None => {
                    proof { reject_overflow(d, i - first); }
                    return None;
                },
            },
            None => {
                proof { reject_overflow(d, i - first); }
                return None;
            },
        }
        i = i + 1;
    }
    assert(d.take(i - first) =~= d);
    Some(value)
}

/// Once the digits read so far are worth more than `usize::MAX`, so is the
/// whole literal, or it holds a byte that is no digit.
proof fn reject_overflow(d: Seq<u8>, k: int)
    requires
        0 <= k < d.len(),
        forall|j: int| 0 <= j < k ==> is_digit(#[trigger] d[j]),
        is_digit(d[k]),
        digits_value(d.take(k)) * 10 + (d[k] - 0x30) > usize::MAX,
    ensures
        !((forall|i: int| 0 <= i < d.len() ==> is_digit(#[trigger] d[i])) && digits_value(d)
            <= usize::MAX),
{
    if forall|i: int| 0 <= i < d.len() ==> is_digit(#[trigger] d[i]) {
        lemma_digits_prefix(d, k + 1);
        assert(d.take(k + 1).drop_last() =~= d.take(k));
        assert(d.take(k + 1).last() == d[k]);
    }
}

/// Point `i` (counted from 1) of a line is there: its x token and its y
/// token exist, and its x token is not empty.
pub open spec fn point_present(spans: Seq<Span>, i: int) -> bool {
    2 * i < spans.len() && spans[2 * i - 1].start < spans[2 * i - 1].end
}

/// How many points are read from the `i`-th on when at most `n` are
/// declared: reading goes on while points are present.
pub open spec fn points_read_from(spans: Seq<Span>, n: int, i: int) -> nat
    decreases n + 1 - i,
{
    if i < 1 || i > n {
        0
    } else if point_present(spans, i) {
        1 + points_read_from(spans, n, i + 1)
    } else {
        0
    }
}

/// The number of points that the first token of a line declares.
pub open spec fn declared_points(s: Seq<u8>) -> Option<nat> {
    usize_literal_value(span_bytes(s, separated_tokens(s)[0]))
}

/// The number of points read from a line that declares `n` of them.
pub open spec fn points_on_line(s: Seq<u8>, n: nat) -> nat {
    points_read_from(separated_tokens(s), n as int, 1)
}

/// A line can be read: its count parses, the count plus one fits in
/// `usize`, and where reading stops before the count, the pair of tokens at
/// which it stops is there to be looked at.
pub open spec fn map_line_readable(s: Seq<u8>) -> bool {
    let sp = separated_tokens(s);
    match declared_points(s) {
        Some(n) => n < usize::MAX && {
            let c = points_on_line(s, n);
            c == n || 2 * (c + 1) < sp.len()
        },
        None => false,
    }
}

/// The points of a line: the `k`-th point (from 0) is made of the tokens
/// `2k + 1` and `2k + 2`.
pub open spec fn map_line_points(s: Seq<u8>) -> Seq<PointTokens> {
    let sp = separated_tokens(s);
    let c = match declared_points(s) {
        Some(n) => points_on_line(s, n),
        None => 0,
    };
    Seq::new(c, |k: int| PointTokens { x: sp[2 * k + 1], y: sp[2 * k + 2] })
}

proof fn lemma_points_read_bound(spans: Seq<Span>, n: int, i: int)
    requires
        1 <= i,
    ensures
        points_read_from(spans, n, i) <= if n + 1 - i > 0 {
            n + 1 - i
        } else {
            0
        },
        forall|k: int|
            i <= k < i + points_read_from(spans, n, i) ==> #[trigger] point_present(spans, k),
        i + points_read_from(spans, n, i) <= n ==> !point_present(
            spans,
            i + points_read_from(spans, n, i),
        ),
    decreases n + 1 - i,
{
    if i <= n && point_present(spans, i) {
        lemma_points_read_bound(spans, n, i + 1);
    }
}

/// A line never gives more points than it declares, and each point it gives
/// is made of two tokens of the line, the x token not empty, neither holding
/// a separator.
pub proof fn lemma_points_within_line(s: Seq<u8>)
    requires
        s.len() <= usize::MAX,
        map_line_readable(s),
    ensures
        map_line_points(s).len() <= declared_points(s)->Some_0,
        forall|k: int|
            0 <= k < map_line_points(s).len() ==> {
                let p = #[trigger] map_line_points(s)[k];
                &&& p.x.start < p.x.end <= s.len()
                &&& p.y.start <= p.y.end <= s.len()
                &&& forall|i: int| p.x.start <= i < p.x.end ==> s[i] != SEPARATOR
                &&& forall|i: int| p.y.start <= i < p.y.end ==> s[i] != SEPARATOR
            },
{
    let sp = separated_tokens(s);
    let n = declared_points(s)->Some_0;
    lemma_points_read_bound(sp, n as int, 1);
    let pts = map_line_points(s);
    lemma_split_exists(s);
    assert forall|k: int| 0 <= k < pts.len() implies {
        let p = #[trigger] pts[k];
        &&& p.x.start < p.x.end <= s.len()
        &&& p.y.start <= p.y.end <= s.len()
        &&& forall|i: int| p.x.start <= i < p.x.end ==> s[i] != SEPARATOR
        &&& forall|i: int| p.y.start <= i < p.y.end ==> s[i] != SEPARATOR
    } by {
        assert(point_present(sp, k + 1));
        assert(sp[2 * k + 1].start <= sp[2 * k + 1].end <= s.len());
        assert(sp[2 * k + 2].start <= sp[2 * k + 2].end <= s.len());
        assert forall|i: int| sp[2 * k + 1].start <= i < sp[2 * k + 1].end implies s[i] != SEPARATOR by {
            assert(sp[2 * k + 1].start <= i && s[i] != SEPARATOR);
        }
        assert forall|i: int| sp[2 * k + 2].start <= i < sp[2 * k + 2].end implies s[i] != SEPARATOR by {
            assert(sp[2 * k + 2].start <= i && s[i] != SEPARATOR);
        }
    }
}

/// The tokens of a line's points follow each other as the line lays them
/// out: the first x token starts right after the first separator of the
/// line (the count before it holds none), each y token starts right after
/// the separator that ends its x token, and the next x token starts right
/// after the separator that ends the previous y token; a y token ends at a
/// separator or at the end of the line.
pub proof fn lemma_points_are_consecutive_tokens(s: Seq<u8>)
    requires
        s.len() <= usize::MAX,
        map_line_readable(s),
    ensures
        ({
            let p = map_line_points(s);
            &&& forall|k: int|
                0 <= k < p.len() ==> {
                    &&& (#[trigger] p[k]).x.start < p[k].x.end < s.len()
                    &&& s[p[k].x.end as int] == SEPARATOR
                    &&& p[k].y.start == p[k].x.end + 1
                    &&& p[k].y.start <= p[k].y.end <= s.len()
                    &&& (p[k].y.end == s.len() || s[p[k].y.end as int] == SEPARATOR)
                }
            &&& forall|k: int| 0 <= k < p.len() - 1 ==> #[trigger] p[k + 1].x.start == p[k].y.end + 1
            &&& p.len() > 0 ==> {
                &&& 1 <= p[0].x.start
                &&& s[p[0].x.start - 1] == SEPARATOR
                &&& forall|i: int| 0 <= i < p[0].x.start - 1 ==> s[i] != SEPARATOR
            }
        }),
{
    let sp = separated_tokens(s);
    let n = declared_points(s)->Some_0;
    lemma_split_exists(s);
    lemma_points_read_bound(sp, n as int, 1);
    let p = map_line_points(s);
    assert forall|k: int| 0 <= k < p.len() implies {
        &&& (#[trigger] p[k]).x.start < p[k].x.end < s.len()
        &&& s[p[k].x.end as int] == SEPARATOR
        &&& p[k].y.start == p[k].x.end + 1
        &&& p[k].y.start <= p[k].y.end <= s.len()
        &&& (p[k].y.end == s.len() || s[p[k].y.end as int] == SEPARATOR)
    } by {
        assert(point_present(sp, k + 1));
        assert(sp[2 * k + 1].end < s.len());
        assert(sp[2 * k + 2].start <= sp[2 * k + 2].end <= s.len());
        if 2 * k + 2 < sp.len() - 1 {
            assert(sp[2 * k + 2].end < s.len());
        }
    }
    assert forall|k: int| 0 <= k < p.len() - 1 implies #[trigger] p[k + 1].x.start == p[k].y.end + 1 by {
        assert(point_present(sp, k + 2));
        assert(sp[2 * k + 2].end < s.len());
    }
    if p.len() > 0 {
        assert(point_present(sp, 1));
        assert(sp[0].end < s.len());
        assert forall|i: int| 0 <= i < p[0].x.start - 1 implies s[i] != SEPARATOR by {
            assert(sp[0].start <= i < sp[0].end);
        }
    }
}

/// Where a line gives fewer points than it declares, reading stopped at an
/// empty x token: right after the last token read (the count, or the y
/// token of the last point) come two separators in a row.
pub proof fn lemma_reading_stops_at_empty_x(s: Seq<u8>)
    requires
        s.len() <= usize::MAX,
        map_line_readable(s),
        map_line_points(s).len() < declared_points(s)->Some_0,
    ensures
        ({
            let p = map_line_points(s);
            let e = if p.len() == 0 {
                separated_tokens(s)[0].end as int
            } else {
                p[p.len() - 1].y.end as int
            };
            &&& e + 1 < s.len()
            &&& s[e] == SEPARATOR
            &&& s[e + 1] == SEPARATOR
        }),
{
    let sp = separated_tokens(s);
    let n = declared_points(s)->Some_0;
    lemma_split_exists(s);
    lemma_points_read_bound(sp, n as int, 1);
    let p = map_line_points(s);
    let c = p.len() as int;
    assert(2 * (c + 1) < sp.len());
    assert(!point_present(sp, c + 1));
    assert(sp[2 * c].end < s.len());
    assert(sp[2 * c + 1].end < s.len());
    if c > 0 {
        assert(p[c - 1].y == sp[2 * c]);
    }
}

/// Reads the points of `line`, or gives `None` where reading cannot go
/// through.
fn read_line_points(line: &[u8]) -> (points: Option<Vec<PointTokens>>)
    ensures
        points is Some <==> map_line_readable(line@),
        points matches Some(v) ==> v@ == map_line_points(line@),
{
    let spans = split_at_separators(line);
    let ghost sp = spans@;
    assert(sp[0].start <= sp[0].end <= line@.len());
    let n = match parse_usize_token(line, spans[0]) {
        Some(n) => n,
        None => {
            return None;
        },
    };
    if n == usize::MAX {
        return None;
    }
    let mut points: Vec<PointTokens> = Vec::new();
    let mut i: usize = 1;
    while i <= n
        invariant
            1 <= i <= n + 1,
            n < usize::MAX,
            sp == spans@,
            sp == separated_tokens(line@),
            splits_at_separators(line@, sp),
            declared_points(line@) == Some(n as nat),
            points_on_line(line@, n as nat) == (i - 1) + points_read_from(sp, n as int, i as int),
            points@.len() == i - 1,
            forall|k: int|
                0 <= k < i - 1 ==> #[trigger] points@[k] == (PointTokens {
                    x: sp[2 * k + 1],
                    y: sp[2 * k + 2],
                }),
        decreases n + 1 - i,
    {
        if i > (spans.len() - 1) / 2 {
            // the x and y tokens of point i are not both there
            assert(!point_present(sp, i as int));
            return None;
        }
        assert(2 * i < spans.len());
        let x = spans[2 * i - 1];
        let y = spans[2 * i];
        if x.start == x.end {
            assert(!point_present(sp, i as int));
            proof {
                assert(map_line_points(line@) =~= points@);
            }
            return Some(points);
        }
        assert(point_present(sp, i as int));
        points.push(PointTokens { x, y });
        i = i + 1;
    }
    proof {
        assert(map_line_points(line@) =~= points@);
    }
    Some(points)
}

/// Whether `line` can be read as one polygon of a map file; reading a line
/// for which this is false fails.
pub fn map_line_is_readable(line: &[u8]) -> (ok: bool)
    ensures
        ok == map_line_readable(line@),
{
    read_line_points(line).is_some()
}

/// Reads one line of a map file: where the coordinate tokens of each of its
/// points stand.
pub fn parse_map_line(line: &[u8]) -> (points: Vec<PointTokens>)
    requires
        map_line_readable(line@),
    ensures
        points@ == map_line_points(line@),
        forall|k: int|
            0 <= k < points@.len() ==> {
                &&& (#[trigger] points@[k]).x.start < points@[k].x.end < line@.len()
                &&& line@[points@[k].x.end as int] == SEPARATOR
                &&& points@[k].y.start == points@[k].x.end + 1
                &&& (points@[k].y.end == line@.len() || line@[points@[k].y.end as int]
                    == SEPARATOR)
            },
        forall|k: int|
            0 <= k < points@.len() - 1 ==> #[trigger] points@[k + 1].x.start == points@[k].y.end
                + 1,
{
    let line_len: usize = line.len();
    proof {
        assert(line@.len() == line_len);
        lemma_points_are_consecutive_tokens(line@);
    }
    match read_line_points(line) {
        Some(points) => points,
        None => Vec::new(),
    }
}

/// Whether every line can be read.
pub fn map_lines_are_readable(lines: &Vec<Vec<u8>>) -> (ok: bool)
    ensures
        ok == forall|i: int| 0 <= i < lines@.len() ==> map_line_readable(#[trigger] lines@[i]@),
{
    let mut i: usize = 0;
    while i < lines.len()
        invariant
            0 <= i <= lines@.len(),
            forall|k: int| 0 <= k < i ==> map_line_readable(#[trigger] lines@[k]@),
        decreases lines@.len() - i,
    {
        if !map_line_is_readable(lines[i].as_slice()) {
            return false;
        }
        i = i + 1;
    }
    true
}

/// Reads every line of a map file, one polygon per line, in order.
pub fn parse_map_lines(lines: &Vec<Vec<u8>>) -> (meshes: Vec<Vec<PointTokens>>)
    requires
        forall|i: int| 0 <= i < lines@.len() ==> map_line_readable(#[trigger] lines@[i]@),
    ensures
        meshes@.len() == lines@.len(),
        forall|i: int| 0 <= i < lines@.len() ==> #[trigger] meshes@[i]@ == map_line_points(lines@[i]@),
{
    let mut meshes: Vec<Vec<PointTokens>> = Vec::new();
    let mut i: usize = 0;
    while i < lines.len()
        invariant
            0 <= i <= lines@.len(),
            forall|k: int| 0 <= k < lines@.len() ==> map_line_readable(#[trigger] lines@[k]@),
            meshes@.len() == i,
            forall|k: int| 0 <= k < i ==> #[trigger] meshes@[k]@ == map_line_points(lines@[k]@),
        decreases lines@.len() - i,
    {
        let mesh = parse_map_line(lines[i].as_slice());
        meshes.push(mesh);
        i = i + 1;
    }
    meshes
}

} // verus!
