//! Where on the screen each panel stands.
use ratatui::layout::{Constraint, Layout, Rect};
use vstd::prelude::*;

verus! {

/// A rectangle of character cells.
#[derive(Clone, Copy, PartialEq, Eq, Structural, Debug)]
pub struct Area {
    pub x: u16,
    pub y: u16,
    pub width: u16,
    pub height: u16,
}

/// The direction in which an area is divided.
#[derive(Clone, Copy, PartialEq, Eq, Structural, Debug)]
pub enum Direction {
    Horizontal,
    Vertical,
}

/// How much of an area a part of it takes.
#[derive(Clone, Copy, PartialEq, Eq, Structural, Debug)]
pub enum Extent {
    /// So many cells.
    Length(u16),
    /// What the others leave, and no less than so many cells.
    Min(u16),
}

impl Extent {
    /// The number of cells that is asked for.
    pub open spec fn amount(self) -> int {
        match self {
            Extent::Length(n) => n as int,
            Extent::Min(n) => n as int,
        }
    }
}

impl Area {
    /// The first cell along a direction.
    pub open spec fn start(self, direction: Direction) -> int {
        match direction {
            Direction::Horizontal => self.x as int,
            Direction::Vertical => self.y as int,
        }
    }

    /// The number of cells along a direction.
    pub open spec fn size(self, direction: Direction) -> int {
        match direction {
            Direction::Horizontal => self.width as int,
            Direction::Vertical => self.height as int,
        }
    }

    /// The area that takes `size` cells from `start` on along a direction, and all of this area
    /// across it.
    pub open spec fn slice(self, direction: Direction, start: int, size: int) -> Area {
        match direction {
            Direction::Horizontal => Area { x: start as u16, width: size as u16, ..self },
            Direction::Vertical => Area { y: start as u16, height: size as u16, ..self },
        }
    }

    /// Whether the last cell has coordinates in range.
    pub open spec fn in_range(self) -> bool {
        &&& self.x + self.width <= u16::MAX
        &&& self.y + self.height <= u16::MAX
    }
}

/// Whether exactly one of three extents has a minimum, which is at most `i16::MAX`.
pub open spec fn has_one_minimum(e: Seq<Extent>) -> bool {
    &&& (e[0] is Min && e[1] is Length && e[2] is Length) || (e[0] is Length && e[1] is Min
        && e[2] is Length) || (e[0] is Length && e[1] is Length && e[2] is Min)
    &&& forall|i: int| 0 <= i < 3 ==> ((#[trigger] e[i]) is Min ==> e[i].amount() <= i16::MAX)
}

/// The number of cells that a part with a minimum gets of `size` cells, where it and the other
/// parts ask for `all` cells together.
pub open spec fn stretched(minimum: int, all: int, size: int) -> int {
    if all <= size {
        size - all + minimum
    } else if minimum <= size {
        minimum
    } else {
        size
    }
}

/// The number of cells that the first of two adjoining lengths gets where both have `room` cells
/// together: half of them, and the odd one, unless that is more than it asks for or leaves the
/// other one more than that asks for.
pub open spec fn shared(first: int, second: int, room: int) -> int {
    let half = (room + 1) / 2;
    if half > first {
        first
    } else if room - half > second {
        room - second
    } else {
        half
    }
}

/// Whether three parts fill an area one behind the other, none longer than it asks for but the one
/// with a minimum, which comes before the others. Where that is the last one, the first two share
/// what it leaves.
pub open spec fn filled_by(area: Area, direction: Direction, e: Seq<Extent>, r: Seq<Area>) -> bool {
    let all = e[0].amount() + e[1].amount() + e[2].amount();
    &&& r[0].start(direction) == area.start(direction)
    &&& r[1].start(direction) == r[0].start(direction) + r[0].size(direction)
    &&& r[2].start(direction) == r[1].start(direction) + r[1].size(direction)
    &&& r[2].start(direction) + r[2].size(direction) == area.start(direction) + area.size(direction)
    &&& forall|i: int|
        0 <= i < 3 ==> match e[i] {
            Extent::Length(n) => (#[trigger] r[i]).size(direction) <= n,
            Extent::Min(n) => r[i].size(direction) == stretched(
                n as int,
                all,
                area.size(direction),
            ),
        }
    &&& e[2] is Min ==> r[0].size(direction) == shared(
        e[0].amount(),
        e[1].amount(),
        area.size(direction) - r[2].size(direction),
    )
}

/// Divides an area by `ratatui::layout::Layout::split`, with the default margin, spacing and flex.
///
/// There is a part for each extent, and each part spans the area across the direction and ends in
/// range. Where one extent has a minimum and the others have lengths, the parts fill the area one
/// behind the other: among the things that the solver behind the call weighs, a gap or an overlap
/// costs more than a missed minimum, that more than a missed length, and that more than a minimum
/// that does not grow, which in turn costs more than room behind the last part. So the part with
/// the minimum gets what is left where all fit, its minimum where they do not, and the whole area
/// where that is smaller still; and no length is exceeded.
///
/// Missing either of two lengths costs the same. What decides between them is the weakest wish,
/// that adjoining parts be equal. Two lengths in front of the minimum therefore share a shortage
/// evenly, as far as neither gets more than it asks for, and a cell that both get half of goes to
/// the first, since half a cell is rounded up. With the minimum between the lengths that wish may
/// leave the choice open, and nothing is stated of it, nor of how lengths behind the minimum share
/// a shortage, nor of a minimum above `i16::MAX`, which the call takes for a negative number.
#[verifier::external_body]
fn split(area: Area, direction: Direction, extents: &Vec<Extent>) -> (r: Vec<Area>)
    requires
        extents@.len() == 3,
        area.in_range(),
    ensures
        r@.len() == 3,
        forall|i: int|
            0 <= i < 3 ==> #[trigger] r@[i] == area.slice(
                direction,
                r@[i].start(direction),
                r@[i].size(direction),
            ),
        forall|i: int| 0 <= i < 3 ==> (#[trigger] r@[i]).in_range(),
        has_one_minimum(extents@) ==> filled_by(area, direction, extents@, r@),
{
    let to = |e: &Extent| match e {
        Extent::Length(n) => Constraint::Length(*n),
        Extent::Min(n) => Constraint::Min(*n),
    };
    let direction = match direction {
        Direction::Horizontal => ratatui::layout::Direction::Horizontal,
        Direction::Vertical => ratatui::layout::Direction::Vertical,
    };
    let rect = Rect { x: area.x, y: area.y, width: area.width, height: area.height };
    let layout = Layout::default().direction(direction).constraints(extents.iter().map(to));
    let back = |r: &Rect| Area { x: r.x, y: r.y, width: r.width, height: r.height };
    layout.split(rect).iter().map(back).collect()
}

/// The panels of the screen.
#[derive(Clone, Copy, PartialEq, Eq, Structural, Debug)]
pub struct Screen {
    pub header: Area,
    pub watchlist: Area,
    pub chart: Area,
    pub ticket: Area,
    pub positions: Area,
    pub trades: Area,
    pub log: Area,
}

/// The panels of an area that is large enough for all of them: the header on top, the log at the
/// bottom, and between them the watchlist, the chart and a column of three panels.
pub open spec fn arranged(a: Area) -> Screen {
    let top = (a.y + 3) as u16;
    let tall = (a.height - 12) as u16;
    let right = (a.x + a.width - 42) as u16;
    Screen {
        header: Area { height: 3, ..a },
        watchlist: Area { x: a.x, y: top, width: 34, height: tall },
        chart: Area { x: (a.x + 34) as u16, y: top, width: (a.width - 76) as u16, height: tall },
        ticket: Area { x: right, y: top, width: 42, height: 8 },
        positions: Area { x: right, y: (top + 8) as u16, width: 42, height: 12 },
        trades: Area { x: right, y: (top + 20) as u16, width: 42, height: (tall - 20) as u16 },
        log: Area { y: (a.y + a.height - 9) as u16, height: 9, ..a },
    }
}

fn extents(a: Extent, b: Extent, c: Extent) -> (r: Vec<Extent>)
    ensures
        r@ == seq![a, b, c],
{
    let mut r: Vec<Extent> = Vec::new();
    r.push(a);
    r.push(b);
    r.push(c);
    r
}

/// Arranges the panels in an area: from top to bottom the header, a middle and the log; in the
/// middle from left to right the watchlist, the chart and a column; in the column from top to
/// bottom the ticket, the positions and the trades.
pub fn arrange(area: Area) -> (r: Screen)
    requires
        area.in_range(),
    ensures
        r.header.x == area.x && r.header.width == area.width,
        r.header.y == area.y && r.header.height <= 3,
        r.chart.y == r.header.y + r.header.height,
        r.chart.height == stretched(16, 28, area.height as int),
        r.log.x == area.x && r.log.width == area.width,
        r.log.y == r.chart.y + r.chart.height && r.log.height <= 9,
        r.log.y + r.log.height == area.y + area.height,
        r.watchlist.x == area.x && r.watchlist.width <= 34,
        r.watchlist.y == r.chart.y && r.watchlist.height == r.chart.height,
        r.chart.x == r.watchlist.x + r.watchlist.width,
        r.chart.width == stretched(50, 126, area.width as int),
        r.ticket.x == r.chart.x + r.chart.width && r.ticket.width <= 42,
        r.ticket.x + r.ticket.width == area.x + area.width,
        r.ticket.x == r.positions.x == r.trades.x,
        r.ticket.width == r.positions.width == r.trades.width,
        r.ticket.y == r.chart.y,
        r.ticket.height == shared(8, 12, r.chart.height - r.trades.height),
        r.positions.y == r.ticket.y + r.ticket.height && r.positions.height <= 12,
        r.trades.y == r.positions.y + r.positions.height,
        r.trades.height == stretched(8, 28, r.chart.height as int),
        r.trades.y + r.trades.height == r.chart.y + r.chart.height,
        area.width >= 126 && area.height >= 40 ==> r == arranged(area),
{
    let root = split(
        area,
        Direction::Vertical,
        &extents(Extent::Length(3), Extent::Min(16), Extent::Length(9)),
    );
    let main = split(
        root[1],
        Direction::Horizontal,
        &extents(Extent::Length(34), Extent::Min(50), Extent::Length(42)),
    );
    let right = split(
        main[2],
        Direction::Vertical,
        &extents(Extent::Length(8), Extent::Length(12), Extent::Min(8)),
    );
    Screen {
        header: root[0],
        watchlist: main[0],
        chart: main[1],
        ticket: right[0],
        positions: right[1],
        trades: right[2],
        log: root[2],
    }
}

} // verus!
