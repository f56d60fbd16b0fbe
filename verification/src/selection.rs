//! Selection uses cached room display rows and UTF-8 boundaries, never PTYs.
use crate::editor::{byte_at_column, column_scan, grapheme_starts, sat_sub, Position, Rect};
use crate::presentation::TranscriptRole;
use crate::text::{push_char, push_str};
use vstd::prelude::*;
use vstd::utf8::{decode_utf8, encode_utf8, is_char_boundary};

verus! {

#[derive(Clone, Copy, Debug, PartialEq, Eq, PartialOrd, Ord, Structural)]
pub struct Point {
    pub row: usize,
    pub byte: usize,
}

#[derive(Clone, Copy, Debug)]
pub struct Selection {
    pub anchor: Point,
    pub end: Point,
    pub dragging: bool,
}

/// Points order by row, then by byte.
pub open spec fn before_or_at(a: Point, b: Point) -> bool {
    a.row < b.row || (a.row == b.row && a.byte <= b.byte)
}

pub open spec fn min_point(a: Point, b: Point) -> Point {
    if before_or_at(a, b) {
        a
    } else {
        b
    }
}

pub open spec fn max_point(a: Point, b: Point) -> Point {
    if before_or_at(a, b) {
        b
    } else {
        a
    }
}

pub open spec fn min_nat(a: nat, b: nat) -> nat {
    if a <= b {
        a
    } else {
        b
    }
}

impl Selection {
    pub open spec fn start_spec(self) -> Point {
        min_point(self.anchor, self.end)
    }

    pub open spec fn end_spec(self) -> Point {
        max_point(self.anchor, self.end)
    }

    /// The selected byte range of display row `row`, whose text is `len` bytes long.
    pub open spec fn range_spec(self, row: nat, len: nat) -> (nat, nat) {
        let (start, end) = (self.start_spec(), self.end_spec());
        if row < start.row || row > end.row {
            (0, 0)
        } else {
            (
                if row == start.row {
                    min_nat(start.byte as nat, len)
                } else {
                    0
                },
                if row == end.row {
                    min_nat(end.byte as nat, len)
                } else {
                    len
                },
            )
        }
    }

    /// Ordered endpoints: the earlier point first.
    pub fn bounds(&self) -> (r: (Point, Point))
        ensures
            r == (self.start_spec(), self.end_spec()),
    {
        let a = self.anchor;
        let e = self.end;
        if a.row < e.row || (a.row == e.row && a.byte <= e.byte) {
            (a, e)
        } else {
            (e, a)
        }
    }

    pub fn range(&self, row: usize, len: usize) -> (r: std::ops::Range<usize>)
        ensures
            (r.start as nat, r.end as nat) == self.range_spec(row as nat, len as nat),
    {
        let (start, end) = self.bounds();
        if row < start.row || row > end.row {
            return 0..0;
        }
        let from = if row == start.row {
            if start.byte < len {
                start.byte
            } else {
                len
            }
        } else {
            0
        };
        let to = if row == end.row {
            if end.byte < len {
                end.byte
            } else {
                len
            }
        } else {
            len
        };
        from..to
    }

    /// Every row of the selection is cut at UTF-8 character boundaries of its
    /// text, as slicing the text requires.
    pub open spec fn cuts_at_boundaries(self, lines: Seq<Seq<char>>) -> bool {
        forall|row: int|
            self.start_spec().row <= row <= self.end_spec().row && 0 <= row < lines.len() ==> {
                let bytes = encode_utf8(#[trigger] lines[row]);
                let (from, to) = self.range_spec(row as nat, bytes.len());
                is_char_boundary(bytes, from as int) && is_char_boundary(bytes, to as int)
            }
    }

    /// The selected part of display row `row`.
    pub open spec fn piece(self, lines: Seq<Seq<char>>, row: int) -> Seq<char> {
        let bytes = encode_utf8(lines[row]);
        let (from, to) = self.range_spec(row as nat, bytes.len());
        decode_utf8(bytes.subrange(from as int, to as int))
    }

    /// The selected parts of rows `first..=last`, joined by newlines.
    pub open spec fn joined(self, lines: Seq<Seq<char>>, first: int, last: int) -> Seq<char>
        decreases last - first,
    {
        if last <= first {
            self.piece(lines, first)
        } else {
            self.joined(lines, first, last - 1) + seq!['\n'] + self.piece(lines, last)
        }
    }

    /// The copied text: nothing for an empty selection or one past the last row.
    pub open spec fn text_spec(self, lines: Seq<Seq<char>>) -> Option<Seq<char>> {
        let (start, end) = (self.start_spec(), self.end_spec());
        if start == end || end.row >= lines.len() {
            None
        } else {
            Some(self.joined(lines, start.row as int, end.row as int))
        }
    }

    /// Soft-wrap newlines are intentionally preserved; chrome is never copied.
    pub fn text(&self, lines: &[String]) -> (r: Option<String>)
        requires
            self.cuts_at_boundaries(lines@.map_values(|l: String| l@)),
        ensures
            r.deep_view() == self.text_spec(lines@.map_values(|l: String| l@)),
    {
        let ghost lv = lines@.map_values(|l: String| l@);
        let (start, end) = self.bounds();
        if (start.row == end.row && start.byte == end.byte) || end.row >= lines.len() {
            return None;
        }
        let mut out = String::new();
        let mut row = start.row;
        while row <= end.row
            invariant
                lv == lines@.map_values(|l: String| l@),
                self.cuts_at_boundaries(lv),
                (start, end) == (self.start_spec(), self.end_spec()),
                start.row <= row <= end.row + 1,
                end.row < lines@.len(),
                row > start.row ==> out@ == self.joined(lv, start.row as int, row - 1),
                row == start.row ==> out@.len() == 0,
            decreases end.row + 1 - row,
        {
            let line = &lines[row];
            let range = self.range(row, crate::text::text_len(line.as_str()));
            proof {
                assert(lv[row as int] == line@);
                assert(before_or_at(start, end));
            }
            let piece = substr(line.as_str(), range.start, range.end);
            if row > start.row {
                push_char(&mut out, '\n');
            }
            let ghost before = out@;
            push_str(&mut out, piece);
            proof {
                vstd::utf8::encode_utf8_decode_utf8(piece@);
                assert(piece@ == self.piece(lv, row as int));
                if row > start.row {
                    assert(out@ =~= self.joined(lv, start.row as int, row as int));
                } else {
                    assert(out@ =~= self.joined(lv, start.row as int, row as int));
                }
            }
            row += 1;
        }
        Some(out)
    }
}

/// `&s[from..to]`: the text between two byte offsets that are character
/// boundaries.
fn substr(s: &str, from: usize, to: usize) -> (r: &str)
    requires
        from <= to,
        is_char_boundary(encode_utf8(s@), from as int),
        is_char_boundary(encode_utf8(s@), to as int),
    ensures
        encode_utf8(r@) == encode_utf8(s@).subrange(from as int, to as int),
{
    proof {
        vstd::utf8::encode_utf8_valid_utf8(s@);
        assert(to <= encode_utf8(s@).len());
        crate::bytes::lemma_boundary(s@, from as int);
        crate::bytes::lemma_boundary(s@, to as int);
    }
    crate::bytes::slice(s, from, to)
}

/// Columns a role's rows are inset by in an area `width` columns wide.
pub open spec fn role_inset(role: TranscriptRole, width: u16) -> nat {
    if role == TranscriptRole::Human && width >= 3 {
        1
    } else {
        0
    }
}

/// The display row and byte a pointer at `p` lands on in the transcript
/// `area`, whose first row shows line `begin`: clamped into the area and to
/// the last line, with the row's inset taken off the column, on the cluster
/// under that column. `None` when there are no lines or the area is empty.
pub open spec fn hit_point(
    lines: Seq<Seq<char>>,
    roles: Seq<TranscriptRole>,
    begin: nat,
    area: Rect,
    p: Position,
) -> Option<Point> {
    if lines.len() == 0 || area.width == 0 || area.height == 0 {
        None
    } else {
        let down = min_nat(sat_sub(p.y as nat, area.y as nat), (area.height - 1) as nat);
        let row = min_nat(begin + down, (lines.len() - 1) as nat);
        let inset = if row < roles.len() {
            role_inset(roles[row as int], area.width)
        } else {
            0
        };
        let column = sat_sub(min_nat(sat_sub(p.x as nat, area.x as nat), area.width as nat), inset);
        let line = lines[row as int];
        Some(Point { row: row as usize, byte: column_scan(line, grapheme_starts(line), column, 0, 0) as usize })
    }
}

pub open spec fn lines_view(lines: Seq<String>) -> Seq<Seq<char>> {
    lines.map_values(|l: String| l@)
}

/// The transcript point under a pointer.
pub fn hit(
    lines: &[String],
    roles: &[TranscriptRole],
    begin: usize,
    area: Rect,
    position: Position,
) -> (r: Option<Point>)
    requires
        begin + min_nat(sat_sub(position.y as nat, area.y as nat), sat_sub(area.height as nat, 1))
            <= usize::MAX,
    ensures
        r == hit_point(lines_view(lines@), roles@, begin as nat, area, position),
{
    if lines.len() == 0 || area.is_empty() {
        return None;
    }
    let dy: u16 = if position.y > area.y {
        position.y - area.y
    } else {
        0
    };
    let down: u16 = if dy < area.height - 1 {
        dy
    } else {
        area.height - 1
    };
    let last = lines.len() - 1;
    let row = if begin + (down as usize) < last {
        begin + down as usize
    } else {
        last
    };
    let inset = if row < roles.len() {
        roles[row].inset(area.width)
    } else {
        0
    };
    let dx: u16 = if position.x > area.x {
        position.x - area.x
    } else {
        0
    };
    let within: usize = if dx < area.width {
        dx as usize
    } else {
        area.width as usize
    };
    let column = if within > inset {
        within - inset
    } else {
        0
    };
    let byte = byte_at_column(lines[row].as_str(), column);
    proof {
        assert(lines_view(lines@)[row as int] == lines@[row as int]@);
    }
    Some(Point { row, byte })
}

} // verus!
