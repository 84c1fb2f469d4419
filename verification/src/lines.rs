//! Points and line segments on a grid, read from `x,y -> x,y` text, with
//! the cells a segment covers.

use vstd::prelude::*;
use vstd::string::StrSliceExecFns;
use crate::parse::{is_digit, digit_val, dec_val, all_digits, lemma_dec_val_prefix_le};

verus! {

/// A grid position.
#[derive(Clone, Copy, Debug, PartialEq, Eq, Hash, Structural)]
pub struct Point {
    pub x: usize,
    pub y: usize,
}

/// A segment between two grid positions.
#[derive(Clone, Copy, Debug, PartialEq, Eq, Hash, Structural)]
pub struct Line {
    pub start: Point,
    pub end: Point,
}

/// The comma-separated fields of `s`, with `cur` the field read so far;
/// empty fields are kept.
pub open spec fn fields_from(s: Seq<char>, cur: Seq<char>) -> Seq<Seq<char>>
    decreases s.len(),
{
    if s.len() == 0 {
        seq![cur]
    } else if s[0] == ',' {
        seq![cur] + fields_from(s.drop_first(), Seq::empty())
    } else {
        fields_from(s.drop_first(), cur.push(s[0]))
    }
}

/// The comma-separated fields of a point's text.
pub open spec fn comma_fields(s: Seq<char>) -> Seq<Seq<char>> {
    fields_from(s, Seq::empty())
}

/// A field that reads as a `usize`.
pub open spec fn is_usize_field(t: Seq<char>) -> bool {
    t.len() > 0 && all_digits(t) && dec_val(t) <= usize::MAX
}

/// A point reads from the first two comma-separated fields; later fields
/// are ignored.
pub open spec fn point_ok(s: Seq<char>) -> bool {
    comma_fields(s).len() >= 2 && is_usize_field(comma_fields(s)[0]) && is_usize_field(
        comma_fields(s)[1],
    )
}

/// The coordinates the text describes; meaningful when `point_ok` holds.
pub open spec fn point_val(s: Seq<char>) -> (int, int) {
    (dec_val(comma_fields(s)[0]), dec_val(comma_fields(s)[1]))
}

/// The separator between the two points of a line.
pub open spec fn arrow() -> Seq<char> {
    seq![' ', '-', '>', ' ']
}

/// The pieces of `s` around `" -> "` separators, with `cur` the piece read
/// so far.
pub open spec fn pieces_from(s: Seq<char>, cur: Seq<char>) -> Seq<Seq<char>>
    decreases s.len(),
{
    if s.len() < 4 {
        seq![cur + s]
    } else if s.subrange(0, 4) == arrow() {
        seq![cur] + pieces_from(s.skip(4), Seq::empty())
    } else {
        pieces_from(s.drop_first(), cur.push(s[0]))
    }
}

/// The pieces of a line's text around `" -> "` separators.
pub open spec fn arrow_pieces(s: Seq<char>) -> Seq<Seq<char>> {
    pieces_from(s, Seq::empty())
}

/// A line reads from the first two pieces, each a point; later pieces are
/// ignored.
pub open spec fn line_ok(s: Seq<char>) -> bool {
    arrow_pieces(s).len() >= 2 && point_ok(arrow_pieces(s)[0]) && point_ok(arrow_pieces(s)[1])
}

/// The views of collected character fields.
pub open spec fn char_vec_views(vs: Seq<Vec<char>>) -> Seq<Seq<char>> {
    vs.map_values(|v: Vec<char>| v@)
}

/// Read one field as a `usize`.
fn parse_usize_field(t: &Vec<char>) -> (r: Option<usize>)
    ensures
        r is Some <==> is_usize_field(t@),
        r is Some ==> r.unwrap() as int == dec_val(t@),
{
    if t.len() == 0 {
        return None;
    }
    let bound: u128 = usize::MAX as u128;
    let mut val: u128 = 0;
    let mut i: usize = 0;
    while i < t.len()
        invariant
            i <= t@.len(),
            bound == usize::MAX as int,
            all_digits(t@.take(i as int)),
            val as int == dec_val(t@.take(i as int)),
            val <= bound,
        decreases t@.len() - i,
    {
        let c = t[i];
        let d: u128 = match c {
            '0' => 0,
            '1' => 1,
            '2' => 2,
            '3' => 3,
            '4' => 4,
            '5' => 5,
            '6' => 6,
            '7' => 7,
            '8' => 8,
            '9' => 9,
            _ => {
                assert(!is_digit(t@[i as int]));
                return None;
            },
        };
        proof {
            assert(c == t@[i as int]);
            assert(is_digit(c) && digit_val(c) == d as int);
            assert(t@.take(i as int + 1).last() == c);
            assert(t@.take(i as int + 1).drop_last() =~= t@.take(i as int));
            assert(all_digits(t@.take(i as int + 1)));
        }
        val = val * 10 + d;
        proof {
            assert(val as int == 10 * dec_val(t@.take(i as int)) + digit_val(c));
            assert(val as int == dec_val(t@.take(i as int + 1)));
        }
        if val > bound {
            proof {
                if all_digits(t@) {
                    lemma_dec_val_prefix_le(t@, i as int + 1);
                }
            }
            return None;
        }
        i = i + 1;
    }
    proof {
        assert(t@.take(t@.len() as int) =~= t@);
    }
    Some(val as usize)
}

/// The characters of `s`, in order.
fn chars_of(s: &str) -> (r: Vec<char>)
    ensures
        r@ == s@,
{
    let n = s.unicode_len();
    let mut out: Vec<char> = Vec::new();
    let mut i: usize = 0;
    while i < n
        invariant
            n == s@.len(),
            i <= n,
            out@ == s@.take(i as int),
        decreases n - i,
    {
        let c = s.get_char(i);
        out.push(c);
        proof {
            assert(out@ =~= s@.take(i as int + 1));
        }
        i = i + 1;
    }
    proof {
        assert(s@.take(n as int) =~= s@);
    }
    out
}

/// Read a point from the first two comma-separated fields of `t`.
fn parse_point_chars(t: &Vec<char>) -> (r: Option<Point>)
    ensures
        r is Some <==> point_ok(t@),
        r is Some ==> r.unwrap().x as int == point_val(t@).0 && r.unwrap().y as int == point_val(
            t@,
        ).1,
{
    let n = t.len();
    let mut fields: Vec<Vec<char>> = Vec::new();
    let mut cur: Vec<char> = Vec::new();
    let ghost mut donef: Seq<Seq<char>> = Seq::empty();
    let mut i: usize = 0;
    proof {
        assert(t@.skip(0) =~= t@);
        assert(comma_fields(t@) =~= Seq::<Seq<char>>::empty() + fields_from(
            t@.skip(0),
            Seq::<char>::empty(),
        ));
    }
    while i < n
        invariant
            n == t@.len(),
            i <= n,
            comma_fields(t@) == donef + fields_from(t@.skip(i as int), cur@),
            donef.len() == fields@.len(),
            char_vec_views(fields@) == donef,
        decreases n - i,
    {
        let c = t[i];
        proof {
            assert(t@.skip(i as int).drop_first() =~= t@.skip(i as int + 1));
        }
        if c == ',' {
            let ghost prev_fields = fields@;
            let finished = cur;
            cur = Vec::new();
            fields.push(finished);
            proof {
                donef = donef.push(finished@);
                assert(char_vec_views(fields@) =~= char_vec_views(prev_fields).push(finished@));
                assert(comma_fields(t@) =~= donef + fields_from(
                    t@.skip(i as int + 1),
                    Seq::<char>::empty(),
                ));
            }
        } else {
            cur.push(c);
        }
        i = i + 1;
    }
    proof {
        assert(t@.skip(n as int) =~= Seq::<char>::empty());
    }
    let ghost prev_fields = fields@;
    fields.push(cur);
    proof {
        donef = donef.push(fields@[fields@.len() - 1]@);
        assert(char_vec_views(fields@) =~= char_vec_views(prev_fields).push(
            fields@[fields@.len() - 1]@,
        ));
        assert(comma_fields(t@) =~= donef);
    }
    if fields.len() < 2 {
        return None;
    }
    let x = match parse_usize_field(&fields[0]) {
        Some(x) => x,
        None => {
            return None;
        },
    };
    let y = match parse_usize_field(&fields[1]) {
        Some(y) => y,
        None => {
            return None;
        },
    };
    Some(Point { x, y })
}

impl Point {
    /// Read a point from text of the shape `x,y`.
    pub fn from_string(s: &str) -> (r: Option<Point>)
        ensures
            r is Some <==> point_ok(s@),
            r is Some ==> r.unwrap().x as int == point_val(s@).0 && r.unwrap().y as int
                == point_val(s@).1,
    {
        let cs = chars_of(s);
        parse_point_chars(&cs)
    }
}

/// The lesser of two coordinates.
pub open spec fn lo(a: int, b: int) -> int {
    if a <= b {
        a
    } else {
        b
    }
}

/// Distance between two coordinates.
pub open spec fn span(a: int, b: int) -> int {
    if a <= b {
        b - a
    } else {
        a - b
    }
}

/// The `i`th coordinate stepping from `a` toward `b`.
pub open spec fn toward(a: int, b: int, i: int) -> int {
    if a <= b {
        a + i
    } else {
        a - i
    }
}

impl Line {
    pub open spec fn horizontal(self) -> bool {
        self.start.y == self.end.y
    }

    pub open spec fn vertical(self) -> bool {
        self.start.x == self.end.x
    }

    /// Equal horizontal and vertical spans.
    pub open spec fn diagonal(self) -> bool {
        span(self.start.x as int, self.end.x as int) == span(
            self.start.y as int,
            self.end.y as int,
        )
    }

    /// The cells the segment covers: left to right for a horizontal line,
    /// top to bottom for a vertical one, and from start to end for a
    /// diagonal one.
    pub open spec fn line_points(self) -> Seq<Point> {
        if self.horizontal() {
            Seq::new(
                (span(self.start.x as int, self.end.x as int) + 1) as nat,
                |i: int|
                    Point {
                        x: (lo(self.start.x as int, self.end.x as int) + i) as usize,
                        y: self.start.y,
                    },
            )
        } else if self.vertical() {
            Seq::new(
                (span(self.start.y as int, self.end.y as int) + 1) as nat,
                |i: int|
                    Point {
                        x: self.start.x,
                        y: (lo(self.start.y as int, self.end.y as int) + i) as usize,
                    },
            )
        } else {
            Seq::new(
                (span(self.start.x as int, self.end.x as int) + 1) as nat,
                |i: int|
                    Point {
                        x: toward(self.start.x as int, self.end.x as int, i) as usize,
                        y: toward(self.start.y as int, self.end.y as int, i) as usize,
                    },
            )
        }
    }

    /// Read a line from text of the shape `x,y -> x,y`.
    pub fn from_string(s: &str) -> (r: Option<Line>)
        ensures
            r is Some <==> line_ok(s@),
            r is Some ==> ({
                let l = r.unwrap();
                &&& l.start.x as int == point_val(arrow_pieces(s@)[0]).0
                &&& l.start.y as int == point_val(arrow_pieces(s@)[0]).1
                &&& l.end.x as int == point_val(arrow_pieces(s@)[1]).0
                &&& l.end.y as int == point_val(arrow_pieces(s@)[1]).1
            }),
    {
        let cs = chars_of(s);
        let n = cs.len();
        let mut pieces: Vec<Vec<char>> = Vec::new();
        let mut cur: Vec<char> = Vec::new();
        let ghost mut donep: Seq<Seq<char>> = Seq::empty();
        let mut i: usize = 0;
        proof {
            assert(cs@.skip(0) =~= cs@);
            assert(arrow_pieces(s@) =~= Seq::<Seq<char>>::empty() + pieces_from(
                cs@.skip(0),
                Seq::<char>::empty(),
            ));
        }
        while i < n
            invariant
                cs@ == s@,
                n == cs@.len(),
                i <= n,
                arrow_pieces(s@) == donep + pieces_from(cs@.skip(i as int), cur@),
                donep.len() == pieces@.len(),
                char_vec_views(pieces@) == donep,
            decreases n - i,
        {
            let sep = n - i >= 4 && cs[i] == ' ' && cs[i + 1] == '-' && cs[i + 2] == '>' && cs[i
                + 3] == ' ';
            if sep {
                proof {
                    assert(cs@.skip(i as int).subrange(0, 4) =~= arrow());
                    assert(cs@.skip(i as int).skip(4) =~= cs@.skip(i as int + 4));
                }
                let ghost prevp = pieces@;
                let finished = cur;
                cur = Vec::new();
                pieces.push(finished);
                proof {
                    donep = donep.push(pieces@[pieces@.len() - 1]@);
                    assert(char_vec_views(pieces@) =~= char_vec_views(prevp).push(
                        pieces@[pieces@.len() - 1]@,
                    ));
                    assert(arrow_pieces(s@) =~= donep + pieces_from(
                        cs@.skip(i as int + 4),
                        Seq::<char>::empty(),
                    ));
                }
                i = i + 4;
            } else {
                let c = cs[i];
                proof {
                    if cs@.skip(i as int).len() >= 4 {
                        if cs@.skip(i as int).subrange(0, 4) == arrow() {
                            assert(cs@.skip(i as int).subrange(0, 4)[0] == cs@[i as int]);
                            assert(cs@.skip(i as int).subrange(0, 4)[1] == cs@[i as int + 1]);
                            assert(cs@.skip(i as int).subrange(0, 4)[2] == cs@[i as int + 2]);
                            assert(cs@.skip(i as int).subrange(0, 4)[3] == cs@[i as int + 3]);
                            assert(false);
                        }
                        assert(cs@.skip(i as int).drop_first() =~= cs@.skip(i as int + 1));
                    } else {
                        assert(cur@.push(cs@[i as int]) + cs@.skip(i as int + 1) =~= cur@
                            + cs@.skip(i as int));
                    }
                }
                cur.push(c);
                i = i + 1;
            }
        }
        proof {
            assert(cs@.skip(n as int) =~= Seq::<char>::empty());
            assert(cur@ + Seq::<char>::empty() =~= cur@);
        }
        let ghost prevp = pieces@;
        pieces.push(cur);
        proof {
            donep = donep.push(pieces@[pieces@.len() - 1]@);
            assert(char_vec_views(pieces@) =~= char_vec_views(prevp).push(
                pieces@[pieces@.len() - 1]@,
            ));
            assert(arrow_pieces(s@) =~= donep);
        }
        if pieces.len() < 2 {
            return None;
        }
        let p0 = match parse_point_chars(&pieces[0]) {
            Some(p) => p,
            None => {
                return None;
            },
        };
        let p1 = match parse_point_chars(&pieces[1]) {
            Some(p) => p,
            None => {
                return None;
            },
        };
        Some(Line { start: p0, end: p1 })
    }

    /// The segment keeps one vertical coordinate.
    pub fn is_horizontal(&self) -> (b: bool)
        ensures
            b == self.horizontal(),
    {
        self.start.y == self.end.y
    }

    /// The segment keeps one horizontal coordinate.
    pub fn is_vertical(&self) -> (b: bool)
        ensures
            b == self.vertical(),
    {
        self.start.x == self.end.x
    }

    /// The cells the segment covers, one step at a time. A segment that is
    /// neither horizontal nor vertical must be a perfect diagonal: only
    /// then does stepping both coordinates by one reach the end.
    pub fn points(&self) -> (r: Vec<Point>)
        requires
            self.horizontal() || self.vertical() || self.diagonal(),
        ensures
            r@ == self.line_points(),
    {
        let mut out: Vec<Point> = Vec::new();
        if self.is_horizontal() {
            let a = self.start.x;
            let b = self.end.x;
            let first = if a <= b {
                a
            } else {
                b
            };
            let last = if a <= b {
                b
            } else {
                a
            };
            let count = last - first;
            let mut i: usize = 0;
            while i < count
                invariant
                    self.horizontal(),
                    a == self.start.x,
                    b == self.end.x,
                    first as int == lo(a as int, b as int),
                    count as int == span(a as int, b as int),
                    first + count == last,
                    i <= count,
                    out@ == self.line_points().take(i as int),
                decreases count - i,
            {
                out.push(Point { x: first + i, y: self.start.y });
                proof {
                    assert(out@ =~= self.line_points().take(i as int + 1));
                }
                i = i + 1;
            }
            out.push(Point { x: last, y: self.start.y });
            proof {
                assert(out@ =~= self.line_points());
            }
        } else if self.is_vertical() {
            let a = self.start.y;
            let b = self.end.y;
            let first = if a <= b {
                a
            } else {
                b
            };
            let last = if a <= b {
                b
            } else {
                a
            };
            let count = last - first;
            let mut i: usize = 0;
            while i < count
                invariant
                    !self.horizontal(),
                    self.vertical(),
                    a == self.start.y,
                    b == self.end.y,
                    first as int == lo(a as int, b as int),
                    count as int == span(a as int, b as int),
                    first + count == last,
                    i <= count,
                    out@ == self.line_points().take(i as int),
                decreases count - i,
            {
                out.push(Point { x: self.start.x, y: first + i });
                proof {
                    assert(out@ =~= self.line_points().take(i as int + 1));
                }
                i = i + 1;
            }
            out.push(Point { x: self.start.x, y: last });
            proof {
                assert(out@ =~= self.line_points());
            }
        } else {
            let sx = self.start.x;
            let ex = self.end.x;
            let sy = self.start.y;
            let ey = self.end.y;
            let count = if sx <= ex {
                ex - sx
            } else {
                sx - ex
            };
            let mut i: usize = 0;
            while i < count
                invariant
                    !self.horizontal(),
                    !self.vertical(),
                    self.diagonal(),
                    sx == self.start.x,
                    ex == self.end.x,
                    sy == self.start.y,
                    ey == self.end.y,
                    count as int == span(sx as int, ex as int),
                    count as int == span(sy as int, ey as int),
                    i <= count,
                    out@ == self.line_points().take(i as int),
                decreases count - i,
            {
                let x = if sx <= ex {
                    sx + i
                } else {
                    sx - i
                };
                let y = if sy <= ey {
                    sy + i
                } else {
                    sy - i
                };
                out.push(Point { x, y });
                proof {
                    assert(out@ =~= self.line_points().take(i as int + 1));
                }
                i = i + 1;
            }
            out.push(Point { x: ex, y: ey });
            proof {
                assert(out@ =~= self.line_points());
            }
        }
        out
    }
}

} // verus!
