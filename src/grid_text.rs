//! The text form of a grid: one row per line, cells separated by commas. A cell
//! reads as a cost, as `X` for an obstacle, and as a free cell otherwise;
//! ASCII whitespace around it is ignored.
use crate::board::{Board, Plot};
use vstd::prelude::*;

verus! {

/// One past the largest cost, `u32::MAX + 1`.
const COST_LIMIT: u64 = 0x1_0000_0000;

/// ASCII whitespace: space, tab, line feed, vertical tab, form feed, carriage
/// return. Only these are trimmed around a cell; other Unicode spaces (such as a
/// no-break space) stay part of the cell's text.
pub open spec fn is_space(b: u8) -> bool {
    b == 32 || (9 <= b && b <= 13)
}

pub open spec fn is_digit(b: u8) -> bool {
    48 <= b && b <= 57
}

/// `s` without its leading whitespace.
pub open spec fn trim_start(s: Seq<u8>) -> Seq<u8>
    decreases s.len(),
{
    if s.len() > 0 && is_space(s[0]) {
        trim_start(s.drop_first())
    } else {
        s
    }
}

/// `s` without its trailing whitespace.
pub open spec fn trim_end(s: Seq<u8>) -> Seq<u8>
    decreases s.len(),
{
    if s.len() > 0 && is_space(s.last()) {
        trim_end(s.drop_last())
    } else {
        s
    }
}

/// The value of a string of decimal digits.
pub open spec fn decimal(s: Seq<u8>) -> nat
    decreases s.len(),
{
    if s.len() == 0 {
        0
    } else {
        decimal(s.drop_last()) * 10 + (s.last() - 48) as nat
    }
}

/// `s` without a leading `+`.
pub open spec fn unsigned_part(s: Seq<u8>) -> Seq<u8> {
    if s.len() > 0 && s[0] == 43 {
        s.drop_first()
    } else {
        s
    }
}

pub open spec fn all_digits(s: Seq<u8>) -> bool {
    forall|i: int| 0 <= i < s.len() ==> is_digit(#[trigger] s[i])
}

/// The cost that `s` spells: an optional `+` and then one or more digits, of a
/// value that fits in `u32`.
pub open spec fn cost_of(s: Seq<u8>) -> Option<u32> {
    let d = unsigned_part(s);
    if d.len() > 0 && all_digits(d) && decimal(d) <= u32::MAX {
        Some(decimal(d) as u32)
    } else {
        None
    }
}

/// The plot that a cell's text stands for.
pub open spec fn plot_of(raw: Seq<u8>) -> Plot {
    let t = trim_end(trim_start(raw));
    match cost_of(t) {
        Some(c) => Plot::Movable(c),
        None => if t == seq![88u8] {
            Plot::Obstacle
        } else {
            Plot::Movable(0)
        },
    }
}

/// The pieces of `s` between the bytes `sep`; one piece when there is none.
pub open spec fn split_on(s: Seq<u8>, sep: u8) -> Seq<Seq<u8>>
    decreases s.len(),
{
    if s.len() == 0 {
        seq![Seq::empty()]
    } else {
        let p = split_on(s.drop_last(), sep);
        if s.last() == sep {
            p.push(Seq::empty())
        } else {
            p.update(p.len() - 1, p.last().push(s.last()))
        }
    }
}

/// A line without its carriage return.
pub open spec fn strip_cr(l: Seq<u8>) -> Seq<u8> {
    if l.len() > 0 && l.last() == 13 {
        l.drop_last()
    } else {
        l
    }
}

/// The lines of `text`: split at line feeds, with no empty last line after a
/// final line feed, and each without a trailing carriage return.
pub open spec fn lines_of(text: Seq<u8>) -> Seq<Seq<u8>> {
    let parts = split_on(text, 10);
    let parts = if parts.last().len() == 0 {
        parts.drop_last()
    } else {
        parts
    };
    parts.map_values(|l: Seq<u8>| strip_cr(l))
}

/// The plots of each line of `text`.
pub open spec fn rows_of(text: Seq<u8>) -> Seq<Seq<Plot>> {
    lines_of(text).map_values(|l: Seq<u8>| split_on(l, 44).map_values(|c: Seq<u8>| plot_of(c)))
}

proof fn lemma_split_nonempty(s: Seq<u8>, sep: u8)
    ensures
        split_on(s, sep).len() >= 1,
    decreases s.len(),
{
    if s.len() > 0 {
        lemma_split_nonempty(s.drop_last(), sep);
    }
}

/// The byte ranges of the pieces of `s[from..to]` between the bytes `sep`.
fn split_ranges(s: &[u8], from: usize, to: usize, sep: u8) -> (r: Vec<(usize, usize)>)
    requires
        from <= to <= s@.len(),
    ensures
        r@.len() == split_on(s@.subrange(from as int, to as int), sep).len(),
        forall|i: int|
            0 <= i < r@.len() ==> {
                &&& from <= (#[trigger] r@[i]).0 <= r@[i].1 <= to
                &&& s@.subrange(r@[i].0 as int, r@[i].1 as int) == split_on(
                    s@.subrange(from as int, to as int),
                    sep,
                )[i]
            },
{
    let mut r: Vec<(usize, usize)> = Vec::new();
    r.push((from, from));
    let mut k = from;
    assert(s@.subrange(from as int, from as int) =~= Seq::<u8>::empty());
    while k < to
        invariant
            from <= k <= to <= s@.len(),
            r@.len() == split_on(s@.subrange(from as int, k as int), sep).len(),
            r@.len() >= 1,
            r@.last().1 == k,
            forall|i: int|
                0 <= i < r@.len() ==> {
                    &&& from <= (#[trigger] r@[i]).0 <= r@[i].1 <= k
                    &&& s@.subrange(r@[i].0 as int, r@[i].1 as int) == split_on(
                        s@.subrange(from as int, k as int),
                        sep,
                    )[i]
                },
        decreases to - k,
    {
        let ghost prev = s@.subrange(from as int, k as int);
        let ghost next = s@.subrange(from as int, k + 1);
        assert(next.drop_last() =~= prev);
        assert(next.last() == s@[k as int]);
        proof {
            lemma_split_nonempty(prev, sep);
        }
        let ghost r0 = r@;
        if s[k] == sep {
            r.push((k + 1, k + 1));
            proof {
                assert forall|i: int| 0 <= i < r@.len() implies s@.subrange(
                    (#[trigger] r@[i]).0 as int,
                    r@[i].1 as int,
                ) == split_on(next, sep)[i] by {
                    if i == r@.len() - 1 {
                        assert(s@.subrange(r@[i].0 as int, r@[i].1 as int) =~= Seq::<u8>::empty());
                    } else {
                        assert(r@[i] == r0[i]);
                    }
                }
            }
        } else {
            let last = r.len() - 1;
            let (a, _) = r[last];
            r.set(last, (a, k + 1));
            proof {
                assert forall|i: int| 0 <= i < r@.len() implies s@.subrange(
                    (#[trigger] r@[i]).0 as int,
                    r@[i].1 as int,
                ) == split_on(next, sep)[i] by {
                    if i == r@.len() - 1 {
                        assert(s@.subrange(a as int, k + 1) =~= s@.subrange(a as int, k as int).push(s@[k as int]));
                    } else {
                        assert(r@[i] == r0[i]);
                    }
                }
            }
        }
        k += 1;
    }
    r
}

/// The bytes `s[from..to]`.
fn copy_range(s: &[u8], from: usize, to: usize) -> (r: Vec<u8>)
    requires
        from <= to <= s@.len(),
    ensures
        r@ == s@.subrange(from as int, to as int),
{
    let mut r: Vec<u8> = Vec::new();
    let mut k = from;
    while k < to
        invariant
            from <= k <= to <= s@.len(),
            r@ == s@.subrange(from as int, k as int),
        decreases to - k,
    {
        r.push(s[k]);
        k += 1;
        assert(r@ =~= s@.subrange(from as int, k as int));
    }
    r
}

/// The plots of `text`, line by line.
fn read_rows(text: &[u8]) -> (rows: Vec<Vec<Plot>>)
    ensures
        rows@.len() == rows_of(text@).len(),
        forall|y: int| 0 <= y < rows@.len() ==> (#[trigger] rows@[y])@ == rows_of(text@)[y],
{
    let n = text.len();
    let lines = split_ranges(text, 0, n, 10);
    assert(text@.subrange(0, n as int) =~= text@);
    let ghost parts = split_on(text@, 10);
    proof {
        lemma_split_nonempty(text@, 10);
    }
    let mut count = lines.len();
    let (last_a, last_b) = lines[count - 1];
    if last_a == last_b {
        count -= 1;
    }
    let ghost kept = if parts.last().len() == 0 {
        parts.drop_last()
    } else {
        parts
    };
    assert(kept.len() == count);
    let mut rows: Vec<Vec<Plot>> = Vec::new();
    let mut y: usize = 0;
    while y < count
        invariant
            y <= count <= lines@.len(),
            parts == split_on(text@, 10),
            kept.len() == count,
            forall|i: int| 0 <= i < count ==> kept[i] == parts[i],
            lines@.len() == parts.len(),
            forall|i: int|
                0 <= i < lines@.len() ==> {
                    &&& (#[trigger] lines@[i]).0 <= lines@[i].1 <= text@.len()
                    &&& text@.subrange(lines@[i].0 as int, lines@[i].1 as int) == parts[i]
                },
            rows@.len() == y,
            forall|k: int| 0 <= k < y ==> (#[trigger] rows@[k])@ == rows_of(text@)[k],
            rows_of(text@).len() == count,
        decreases count - y,
    {
        let (a, b) = lines[y];
        let end = if b > a && text[b - 1] == 13 {
            b - 1
        } else {
            b
        };
        let ghost line = strip_cr(parts[y as int]);
        assert(text@.subrange(a as int, end as int) =~= line);
        let cells = split_ranges(text, a, end, 44);
        let ghost want = split_on(line, 44).map_values(|c: Seq<u8>| plot_of(c));
        let mut row: Vec<Plot> = Vec::new();
        let mut x: usize = 0;
        while x < cells.len()
            invariant
                x <= cells@.len() == want.len(),
                want == split_on(line, 44).map_values(|c: Seq<u8>| plot_of(c)),
                line == text@.subrange(a as int, end as int),
                forall|i: int|
                    0 <= i < cells@.len() ==> {
                        &&& a <= (#[trigger] cells@[i]).0 <= cells@[i].1 <= end
                        &&& text@.subrange(cells@[i].0 as int, cells@[i].1 as int) == split_on(line, 44)[i]
                    },
                end <= text@.len(),
                row@.len() == x,
                forall|k: int| 0 <= k < x ==> row@[k] == want[k],
            decreases cells@.len() - x,
        {
            let (c0, c1) = cells[x];
            let bytes = copy_range(text, c0, c1);
            row.push(Plot::parse(bytes.as_slice()));
            x += 1;
        }
        assert(row@ =~= want);
        assert(rows_of(text@)[y as int] == want);
        rows.push(row);
        y += 1;
    }
    rows
}

impl Board {
    /// A grid from its text: one row per line, cells separated by commas.
    /// `None` when the lines differ in their number of cells.
    pub fn from_text(text: &[u8]) -> (r: Option<Board>)
        ensures
            ({
                let rows = rows_of(text@);
                &&& r is Some <==> forall|y: int| 0 <= y < rows.len() ==> (#[trigger] rows[y]).len() == rows[0].len()
                &&& r matches Some(b) ==> {
                    &&& b.h() == rows.len()
                    &&& b.w() == (if rows.len() == 0 { 0 } else { rows[0].len() })
                    &&& forall|x: usize, y: usize|
                        b.in_bounds((x, y)) ==> #[trigger] b.plot_at((x, y)) == rows[y as int][x as int]
                }
            }),
    {
        let rows = read_rows(text);
        let ghost want = rows_of(text@);
        proof {
            if rows@.len() > 0 {
                assert(rows@[0]@ == want[0]);
            }
            assert forall|y: int| 0 <= y < rows@.len() implies (#[trigger] rows@[y])@.len() == want[y].len() by {
                assert(rows@[y]@ == want[y]);
            }
        }
        let r = Board::from_rows(rows);
        proof {
            if r is Some {
                assert forall|y: int| 0 <= y < want.len() implies (#[trigger] want[y]).len() == want[0].len() by {
                    assert(rows@[y]@ == want[y]);
                }
            } else {
                let y = choose|y: int| 0 <= y < rows@.len() && !((#[trigger] rows@[y])@.len() == rows@[0]@.len());
                assert(rows@[y]@ == want[y]);
            }
        }
        r
    }
}

proof fn lemma_trim_start(s: Seq<u8>, i: int)
    requires
        0 <= i <= s.len(),
        forall|k: int| 0 <= k < i ==> is_space(#[trigger] s[k]),
        i == s.len() || !is_space(s[i]),
    ensures
        trim_start(s) == s.subrange(i, s.len() as int),
    decreases i,
{
    if i > 0 {
        lemma_trim_start(s.drop_first(), i - 1);
        assert(s.drop_first().subrange(i - 1, s.len() - 1) =~= s.subrange(i, s.len() as int));
    } else {
        assert(s.subrange(0, s.len() as int) =~= s);
    }
}

proof fn lemma_trim_end(s: Seq<u8>, j: int)
    requires
        0 <= j <= s.len(),
        forall|k: int| j <= k < s.len() ==> is_space(#[trigger] s[k]),
        j == 0 || !is_space(s[j - 1]),
    ensures
        trim_end(s) == s.subrange(0, j),
    decreases s.len() - j,
{
    if j < s.len() {
        lemma_trim_end(s.drop_last(), j);
        assert(s.drop_last().subrange(0, j) =~= s.subrange(0, j));
    } else {
        assert(s.subrange(0, j) =~= s);
    }
}

/// The value of the digits `s[from..to]`, capped at `COST_LIMIT`.
fn capped_decimal(s: &[u8], from: usize, to: usize) -> (r: u64)
    requires
        from <= to <= s@.len(),
        forall|i: int| from <= i < to ==> is_digit(#[trigger] s@[i]),
    ensures
        r == if decimal(s@.subrange(from as int, to as int)) < COST_LIMIT {
            decimal(s@.subrange(from as int, to as int))
        } else {
            COST_LIMIT as nat
        },
{
    let mut acc: u64 = 0;
    let mut k = from;
    assert(s@.subrange(from as int, from as int) =~= Seq::<u8>::empty());
    while k < to
        invariant
            from <= k <= to <= s@.len(),
            forall|i: int| from <= i < to ==> is_digit(#[trigger] s@[i]),
            acc == if decimal(s@.subrange(from as int, k as int)) < COST_LIMIT {
                decimal(s@.subrange(from as int, k as int))
            } else {
                COST_LIMIT as nat
            },
        decreases to - k,
    {
        let ghost prev = s@.subrange(from as int, k as int);
        let ghost next = s@.subrange(from as int, k + 1);
        assert(next.drop_last() =~= prev);
        let d = (s[k] - 48) as u64;
        let ghost x = decimal(prev);
        assert(decimal(next) == x * 10 + d);
        let v = acc * 10 + d;
        acc = if v < COST_LIMIT {
            v
        } else {
            COST_LIMIT
        };
        assert(acc == if x * 10 + d < COST_LIMIT {
            x * 10 + d
        } else {
            COST_LIMIT as int
        }) by (nonlinear_arith)
            requires
                v == (if x < COST_LIMIT { x as int } else { COST_LIMIT as int }) * 10 + d,
                acc == if v < COST_LIMIT { v as int } else { COST_LIMIT as int },
                d <= 9,
                COST_LIMIT == 0x1_0000_0000u64,
        ;
        k += 1;
    }
    acc
}

impl Plot {
    /// The plot that the text of one cell stands for: its cost when it reads as
    /// a number that fits in `u32` (an optional `+`, then digits), an obstacle
    /// for `X`, and otherwise a free cell. ASCII whitespace around it is ignored;
    /// other Unicode whitespace is not trimmed.
    pub fn parse(raw: &[u8]) -> (r: Plot)
        ensures
            r == plot_of(raw@),
    {
        let n = raw.len();
        let mut i: usize = 0;
        while i < n && (raw[i] == 32 || (9 <= raw[i] && raw[i] <= 13))
            invariant
                i <= n == raw@.len(),
                forall|k: int| 0 <= k < i ==> is_space(#[trigger] raw@[k]),
            decreases n - i,
        {
            i += 1;
        }
        let mut j: usize = n;
        while j > i && (raw[j - 1] == 32 || (9 <= raw[j - 1] && raw[j - 1] <= 13))
            invariant
                i <= j <= n == raw@.len(),
                forall|k: int| j <= k < n ==> is_space(#[trigger] raw@[k]),
            decreases j - i,
        {
            j -= 1;
        }
        let ghost t = raw@.subrange(i as int, j as int);
        proof {
            lemma_trim_start(raw@, i as int);
            let s1 = raw@.subrange(i as int, n as int);
            assert forall|k: int| j - i <= k < s1.len() implies is_space(#[trigger] s1[k]) by {
                assert(s1[k] == raw@[i + k]);
            }
            lemma_trim_end(s1, j - i);
            assert(s1.subrange(0, j - i) =~= t);
        }
        let start = if i < j && raw[i] == 43 {
            i + 1
        } else {
            i
        };
        let ghost d = unsigned_part(t);
        assert(d =~= raw@.subrange(start as int, j as int));
        let mut digits_only = start < j;
        let mut k = start;
        while k < j
            invariant
                start <= k <= j <= raw@.len(),
                i <= j,
                t == raw@.subrange(i as int, j as int),
                trim_end(trim_start(raw@)) == t,
                d == unsigned_part(t),
                d == raw@.subrange(start as int, j as int),
                digits_only <==> start < j && forall|m: int| start <= m < k ==> is_digit(#[trigger] raw@[m]),
            decreases j - k,
        {
            if raw[k] < 48 || raw[k] > 57 {
                digits_only = false;
            }
            k += 1;
        }
        if digits_only {
            let v = capped_decimal(raw, start, j);
            proof {
                assert forall|m: int| 0 <= m < d.len() implies is_digit(#[trigger] d[m]) by {
                    assert(d[m] == raw@[start + m]);
                }
            }
            if v < COST_LIMIT {
                return Plot::Movable(v as u32);
            }
            assert(decimal(d) >= COST_LIMIT);
        } else {
            proof {
                if d.len() > 0 && all_digits(d) {
                    assert forall|m: int| start <= m < j implies is_digit(#[trigger] raw@[m]) by {
                        assert(raw@[m] == d[m - start]);
                    }
                    assert(k == j);
                }
                assert(cost_of(t) is None);
            }
        }
        if j > i && j - i == 1 && raw[i] == 88 {
            assert(t =~= seq![88u8]);
            Plot::Obstacle
        } else {
            proof {
                if t == seq![88u8] {
                    assert(t.len() == 1);
                }
            }
            Plot::Movable(0)
        }
    }
}

} // verus!
