//! What each panel of the screen shows.
use crate::decimal::{
    cents_text, digits_padded, format_cents, format_padded, format_rounded, rounded_text,
};
use crate::double::{
    difference, larger, less, product, ratio, smaller, sum, whole, zero, Double, Value,
};
use crate::market::{
    change, point_values, unrealized, Color, InstrumentView, Side, TradeView, MAX_HISTORY,
};
use crate::terminal::{
    exposed_each, paired, realized_each, string_views, total, unrealized_each, App, AppView,
};
use vstd::prelude::*;

verus! {

/// How a piece of text looks. A colour that is not given is that of the terminal.
#[derive(Clone, Copy, PartialEq, Eq, Structural, Debug)]
pub struct Style {
    pub fg: Option<Color>,
    pub bg: Option<Color>,
    pub bold: bool,
}

/// A piece of text as values.
#[verifier::ext_equal]
pub struct SpanView {
    pub text: Seq<char>,
    pub style: Style,
}

/// A piece of text in one style.
pub struct Span {
    pub text: String,
    pub style: Style,
}

impl View for Span {
    type V = SpanView;

    open spec fn view(&self) -> SpanView {
        SpanView { text: self.text@, style: self.style }
    }
}

/// The style of the terminal.
pub open spec fn no_style() -> Style {
    Style { fg: None, bg: None, bold: false }
}

/// Text in one colour.
pub open spec fn tinted(c: Color) -> Style {
    Style { fg: Some(c), bg: None, bold: false }
}

/// Bold text in one colour.
pub open spec fn strong(c: Color) -> Style {
    Style { fg: Some(c), bg: None, bold: true }
}

/// Text in the style of the terminal.
pub open spec fn raw(text: Seq<char>) -> SpanView {
    SpanView { text, style: no_style() }
}

/// Text in a style.
pub open spec fn styled(text: Seq<char>, style: Style) -> SpanView {
    SpanView { text, style }
}

fn raw_span(text: String) -> (r: Span)
    ensures
        r@ == raw(text@),
{
    Span { text, style: Style { fg: None, bg: None, bold: false } }
}

fn raw_str(text: &str) -> (r: Span)
    ensures
        r@ == raw(text@),
{
    raw_span(text.to_string())
}

fn tinted_span(text: String, c: Color) -> (r: Span)
    ensures
        r@ == styled(text@, tinted(c)),
{
    Span { text, style: Style { fg: Some(c), bg: None, bold: false } }
}

fn tinted_str(text: &str, c: Color) -> (r: Span)
    ensures
        r@ == styled(text@, tinted(c)),
{
    tinted_span(text.to_string(), c)
}

fn strong_span(text: String, c: Color) -> (r: Span)
    ensures
        r@ == styled(text@, strong(c)),
{
    Span { text, style: Style { fg: Some(c), bg: None, bold: true } }
}

/// `prefix` followed by `rest`.
fn joined(prefix: &str, rest: String) -> (r: String)
    ensures
        r@ == prefix@ + rest@,
{
    let mut s = prefix.to_string();
    s.append(rest.as_str());
    s
}

/// A line as values.
pub open spec fn span_views(s: Seq<Span>) -> Seq<SpanView> {
    s.map_values(|x: Span| x@)
}

/// Lines as values.
pub open spec fn line_views(s: Seq<Vec<Span>>) -> Seq<Seq<SpanView>> {
    s.map_values(|l: Vec<Span>| span_views(l@))
}

/// How lines that are too long are broken.
#[derive(Clone, Copy, PartialEq, Eq, Structural, Debug)]
pub enum Wrapping {
    /// Not at all.
    Cut,
    /// With the blanks at the start of each line dropped.
    Trimmed,
    /// As they are.
    Kept,
}

/// A panel of text as values.
#[verifier::ext_equal]
pub struct TextView {
    pub title: Seq<char>,
    pub lines: Seq<Seq<SpanView>>,
    pub wrapping: Wrapping,
}

/// A panel of text.
pub struct TextPanel {
    pub title: String,
    pub lines: Vec<Vec<Span>>,
    pub wrapping: Wrapping,
}

impl View for TextPanel {
    type V = TextView;

    open spec fn view(&self) -> TextView {
        TextView { title: self.title@, lines: line_views(self.lines@), wrapping: self.wrapping }
    }
}

/// A row of a table as values.
#[verifier::ext_equal]
pub struct RowView {
    pub cells: Seq<Seq<char>>,
    pub style: Style,
}

/// A row of a table.
pub struct TableRow {
    pub cells: Vec<String>,
    pub style: Style,
}

impl View for TableRow {
    type V = RowView;

    open spec fn view(&self) -> RowView {
        RowView { cells: string_views(self.cells@), style: self.style }
    }
}

/// Rows as values.
pub open spec fn row_views(s: Seq<TableRow>) -> Seq<RowView> {
    s.map_values(|r: TableRow| r@)
}

/// A table as values.
#[verifier::ext_equal]
pub struct TableView {
    pub title: Seq<char>,
    pub header: RowView,
    pub rows: Seq<RowView>,
    pub widths: Seq<u16>,
}

/// A panel with a table.
pub struct TablePanel {
    pub title: String,
    pub header: TableRow,
    pub rows: Vec<TableRow>,
    pub widths: Vec<u16>,
}

impl View for TablePanel {
    type V = TableView;

    open spec fn view(&self) -> TableView {
        TableView {
            title: self.title@,
            header: self.header@,
            rows: row_views(self.rows@),
            widths: self.widths@,
        }
    }
}

/// The colour of an amount: green above zero, red below, and gray otherwise.
pub open spec fn hue(v: Value) -> Color {
    if less(zero(), v) {
        Color::Green
    } else if less(v, zero()) {
        Color::Red
    } else {
        Color::Gray
    }
}

/// The colour of an amount: green above zero, red below, and gray otherwise.
pub fn pnl_color(value: Double) -> (r: Color)
    ensures
        r == hue(value@),
{
    let none = Double::signed_zero(false);
    if none.lt(value) {
        Color::Green
    } else if value.lt(none) {
        Color::Red
    } else {
        Color::Gray
    }
}

/// The line of the header.
pub open spec fn header_line(a: AppView) -> Seq<SpanView> {
    let realized = total(realized_each(a));
    let open = total(unrealized_each(a));
    seq![
        styled(
            " Rust Trading Terminal "@,
            Style { fg: Some(Color::Black), bg: Some(Color::Cyan), bold: true },
        ),
        raw("  "@),
        styled(
            a.current().symbol + " "@ + cents_text(a.current().price, false),
            strong(Color::White),
        ),
        raw("  "@),
        styled("d% "@ + cents_text(change(a.current()), true), tinted(hue(change(a.current())))),
        raw("  "@),
        styled("rPNL "@ + cents_text(realized, true), tinted(hue(realized))),
        raw("  "@),
        styled("uPNL "@ + cents_text(open, true), tinted(hue(open))),
        raw("  "@),
        styled("gross "@ + cents_text(total(exposed_each(a)), false), tinted(Color::Yellow)),
    ]
}

/// The panel on top: the selected instrument and the totals.
pub fn header(app: &App) -> (r: TextPanel)
    requires
        app@.has_selection(),
    ensures
        r@.title == "Overview"@,
        r@.lines == seq![header_line(app@)],
        r@.wrapping == Wrapping::Cut,
{
    let realized = app.total_realized();
    let unrealized = app.total_unrealized();
    let exposure = app.gross_exposure();
    let selected = app.current_instrument();
    let change = selected.change_percent();

    let mut line: Vec<Span> = Vec::new();
    line.push(
        Span {
            text: " Rust Trading Terminal ".to_string(),
            style: Style { fg: Some(Color::Black), bg: Some(Color::Cyan), bold: true },
        },
    );
    line.push(raw_str("  "));
    let mut quote = selected.symbol.to_string();
    quote.append(" ");
    quote.append(format_cents(selected.price, false).as_str());
    line.push(strong_span(quote, Color::White));
    line.push(raw_str("  "));
    line.push(tinted_span(joined("d% ", format_cents(change, true)), pnl_color(change)));
    line.push(raw_str("  "));
    line.push(tinted_span(joined("rPNL ", format_cents(realized, true)), pnl_color(realized)));
    line.push(raw_str("  "));
    line.push(tinted_span(joined("uPNL ", format_cents(unrealized, true)), pnl_color(unrealized)));
    line.push(raw_str("  "));
    line.push(tinted_span(joined("gross ", format_cents(exposure, false)), Color::Yellow));
    assert(span_views(line@) =~= header_line(app@));

    let mut lines: Vec<Vec<Span>> = Vec::new();
    lines.push(line);
    let r = TextPanel { title: "Overview".to_string(), lines, wrapping: Wrapping::Cut };
    assert(r@.lines =~= seq![header_line(app@)]);
    r
}

/// The row of an instrument in the watchlist. The selected one stands out.
pub open spec fn watch_row(i: InstrumentView, selected: bool) -> RowView {
    RowView {
        cells: seq![i.symbol, cents_text(i.price, false), cents_text(change(i), true) + "%"@],
        style: if selected {
            Style { fg: Some(Color::Black), bg: Some(Color::LightCyan), bold: true }
        } else {
            no_style()
        },
    }
}

/// The heading of a table.
pub open spec fn heading(cells: Seq<Seq<char>>) -> RowView {
    RowView { cells, style: strong(Color::Cyan) }
}

/// The table of all instruments.
pub open spec fn watch_table(a: AppView) -> TableView {
    TableView {
        title: "Watchlist"@,
        header: heading(seq!["Symbol"@, "Last"@, "Change"@]),
        rows: Seq::new(
            a.instruments.len(),
            |i: int| watch_row(a.instruments[i], i == a.selected),
        ),
        widths: seq![10u16, 10u16, 10u16],
    }
}

/// The panel of all instruments.
pub fn watchlist(app: &App) -> (r: TablePanel)
    ensures
        r@ == watch_table(app@),
{
    let mut rows: Vec<TableRow> = Vec::new();
    let mut i: usize = 0;
    while i < app.instruments.len()
        invariant
            i <= app.instruments@.len(),
            rows@.len() == i,
            forall|j: int|
                0 <= j < i ==> (#[trigger] rows@[j])@ == watch_row(
                    app@.instruments[j],
                    j == app.selected,
                ),
        decreases app.instruments@.len() - i,
    {
        let instrument = &app.instruments[i];
        let mut cells: Vec<String> = Vec::new();
        cells.push(instrument.symbol.to_string());
        cells.push(format_cents(instrument.price, false));
        let mut percent = format_cents(instrument.change_percent(), true);
        percent.append("%");
        cells.push(percent);
        let style = if i == app.selected {
            Style { fg: Some(Color::Black), bg: Some(Color::LightCyan), bold: true }
        } else {
            Style { fg: None, bg: None, bold: false }
        };
        let row = TableRow { cells, style };
        assert(row@.cells =~= watch_row(app@.instruments[i as int], i == app.selected).cells);
        rows.push(row);
        i = i + 1;
    }
    let mut cells: Vec<String> = Vec::new();
    cells.push("Symbol".to_string());
    cells.push("Last".to_string());
    cells.push("Change".to_string());
    let header = heading_row(cells);
    let mut widths: Vec<u16> = Vec::new();
    widths.push(10);
    widths.push(10);
    widths.push(10);
    let r = TablePanel { title: "Watchlist".to_string(), header, rows, widths };
    proof {
        let want = watch_table(app@);
        assert(r@.header.cells =~= want.header.cells);
        assert(r@.rows =~= want.rows);
        assert(r@.widths =~= want.widths);
    }
    r
}

fn heading_row(cells: Vec<String>) -> (r: TableRow)
    ensures
        r@ == heading(string_views(cells@)),
{
    TableRow { cells, style: Style { fg: Some(Color::Cyan), bg: None, bold: true } }
}

/// The least price of a list of points, an infinity if there is none.
pub open spec fn lowest(s: Seq<(Value, Value)>) -> Value
    decreases s.len(),
{
    if s.len() == 0 {
        Value::Infinite { negative: false }
    } else {
        smaller(lowest(s.drop_last()), s.last().1)
    }
}

/// The greatest price of a list of points, a negative infinity if there is none.
pub open spec fn highest(s: Seq<(Value, Value)>) -> Value
    decreases s.len(),
{
    if s.len() == 0 {
        Value::Infinite { negative: true }
    } else {
        larger(highest(s.drop_last()), s.last().1)
    }
}

/// The room above and below a chart: 15 percent of its height, but at least one.
pub open spec fn margin(low: Value, high: Value) -> Value {
    larger(product(difference(high, low), ratio(15, 100)), whole(1))
}

/// A chart as values.
#[verifier::ext_equal]
pub struct ChartView {
    pub title: Seq<char>,
    pub series: Seq<char>,
    pub series_style: Style,
    pub points: Seq<(Value, Value)>,
    pub axis_style: Style,
    pub x_bounds: (Value, Value),
    pub x_labels: Seq<SpanView>,
    pub y_bounds: (Value, Value),
    pub y_labels: Seq<SpanView>,
}

/// A panel with a chart.
pub struct ChartPanel {
    pub title: String,
    pub series: String,
    pub series_style: Style,
    pub points: Vec<(Double, Double)>,
    pub axis_style: Style,
    pub x_bounds: (Double, Double),
    pub x_labels: Vec<Span>,
    pub y_bounds: (Double, Double),
    pub y_labels: Vec<Span>,
}

impl View for ChartPanel {
    type V = ChartView;

    open spec fn view(&self) -> ChartView {
        ChartView {
            title: self.title@,
            series: self.series@,
            series_style: self.series_style,
            points: point_values(self.points@),
            axis_style: self.axis_style,
            x_bounds: (self.x_bounds.0@, self.x_bounds.1@),
            x_labels: span_views(self.x_labels@),
            y_bounds: (self.y_bounds.0@, self.y_bounds.1@),
            y_labels: span_views(self.y_labels@),
        }
    }
}

/// The first time that a chart shows.
pub open spec fn chart_start(clock: nat) -> nat {
    if clock >= MAX_HISTORY {
        (clock - MAX_HISTORY) as nat
    } else {
        0
    }
}

/// The last time that a chart shows.
pub open spec fn chart_end(clock: nat) -> nat {
    if clock >= MAX_HISTORY {
        clock
    } else {
        MAX_HISTORY as nat
    }
}

/// The chart of the selected instrument.
pub open spec fn price_chart(a: AppView) -> ChartView {
    let history = a.current().history;
    let low = lowest(history);
    let high = highest(history);
    ChartView {
        title: "Chart "@ + a.current().symbol,
        series: "mid"@,
        series_style: tinted(Color::Cyan),
        points: history,
        axis_style: tinted(Color::DarkGray),
        x_bounds: (whole(chart_start(a.clock)), whole(chart_end(a.clock))),
        x_labels: seq![
            styled("older"@, tinted(Color::DarkGray)),
            styled("now"@, tinted(Color::DarkGray)),
        ],
        y_bounds: (difference(low, margin(low, high)), sum(high, margin(low, high))),
        y_labels: seq![
            raw(cents_text(low, false)),
            raw(cents_text(a.current().price, false)),
            raw(cents_text(high, false)),
        ],
    }
}

/// The panel with the chart of the selected instrument.
pub fn chart(app: &App) -> (r: ChartPanel)
    requires
        app@.has_selection(),
    ensures
        r@ == price_chart(app@),
{
    let instrument = app.current_instrument();
    let ghost history = point_values(instrument.history@);
    let mut points: Vec<(Double, Double)> = Vec::new();
    let mut min_price = Double::infinity(false);
    let mut max_price = Double::infinity(true);
    let mut i: usize = 0;
    while i < instrument.history.len()
        invariant
            i <= instrument.history@.len(),
            points@ == instrument.history@.take(i as int),
            history == point_values(instrument.history@),
            min_price@ == lowest(history.take(i as int)),
            max_price@ == highest(history.take(i as int)),
        decreases instrument.history@.len() - i,
    {
        let point = instrument.history[i];
        points.push(point);
        min_price = min_price.min(point.1);
        max_price = max_price.max(point.1);
        proof {
            assert(history.take(i + 1).drop_last() =~= history.take(i as int));
            assert(points@ =~= instrument.history@.take(i + 1));
        }
        i = i + 1;
    }
    proof {
        assert(history.take(i as int) =~= history);
        assert(points@ =~= instrument.history@);
    }

    let padding = max_price.minus(min_price).times(Double::from_ratio(15, 100)).max(
        Double::from_whole(1),
    );
    let limit: u64 = MAX_HISTORY as u64;
    let first: u64 = if app.clock >= limit {
        app.clock - limit
    } else {
        0
    };
    let last: u64 = if app.clock >= limit {
        app.clock
    } else {
        limit
    };
    let mut x_labels: Vec<Span> = Vec::new();
    x_labels.push(tinted_str("older", Color::DarkGray));
    x_labels.push(tinted_str("now", Color::DarkGray));
    let mut y_labels: Vec<Span> = Vec::new();
    y_labels.push(raw_span(format_cents(min_price, false)));
    y_labels.push(raw_span(format_cents(instrument.price, false)));
    y_labels.push(raw_span(format_cents(max_price, false)));

    let r = ChartPanel {
        title: joined("Chart ", instrument.symbol.to_string()),
        series: "mid".to_string(),
        series_style: Style { fg: Some(Color::Cyan), bg: None, bold: false },
        points,
        axis_style: Style { fg: Some(Color::DarkGray), bg: None, bold: false },
        x_bounds: (Double::from_whole(first), Double::from_whole(last)),
        x_labels,
        y_bounds: (min_price.minus(padding), max_price.plus(padding)),
        y_labels,
    };
    proof {
        let want = price_chart(app@);
        assert(r@.x_labels =~= want.x_labels);
        assert(r@.y_labels =~= want.y_labels);
        assert(r@.points =~= want.points);
    }
    r
}

/// A line with a label and a text in one style.
pub open spec fn field(label: Seq<char>, text: SpanView) -> Seq<SpanView> {
    seq![styled(label, tinted(Color::Gray)), text]
}

fn field_line(label: &str, text: Span) -> (r: Vec<Span>)
    ensures
        span_views(r@) == field(label@, text@),
{
    let mut r: Vec<Span> = Vec::new();
    r.push(tinted_str(label, Color::Gray));
    r.push(text);
    assert(span_views(r@) =~= field(label@, text@));
    r
}

/// The lines of the order ticket.
pub open spec fn ticket_lines(a: AppView) -> Seq<Seq<SpanView>> {
    let price = a.current().price;
    let held = a.held();
    seq![
        field("Symbol: "@, raw(a.current().symbol)),
        field("Qty:    "@, styled(rounded_text(a.ticket), strong(Color::Yellow))),
        field(
            "Bid:    "@,
            styled(cents_text(product(price, ratio(9992, 10000)), false), tinted(Color::Green)),
        ),
        field(
            "Ask:    "@,
            styled(cents_text(product(price, ratio(10008, 10000)), false), tinted(Color::Red)),
        ),
        field(
            "Pos:    "@,
            styled(
                rounded_text(held.qty) + " @ "@ + cents_text(held.average_price, false),
                tinted(hue(held.qty)),
            ),
        ),
    ]
}

/// The panel with the order ticket.
pub fn ticket(app: &App) -> (r: TextPanel)
    requires
        app@.consistent(),
    ensures
        r@ == (TextView {
            title: "Order Ticket"@,
            lines: ticket_lines(app@),
            wrapping: Wrapping::Trimmed,
        }),
{
    let instrument = app.current_instrument();
    let bid = instrument.price.times(Double::from_ratio(9992, 10000));
    let ask = instrument.price.times(Double::from_ratio(10008, 10000));
    let position = &app.positions[app.selected];
    let mut held = format_rounded(position.qty);
    held.append(" @ ");
    held.append(format_cents(position.average_price, false).as_str());

    let mut lines: Vec<Vec<Span>> = Vec::new();
    lines.push(field_line("Symbol: ", raw_str(instrument.symbol)));
    lines.push(
        field_line("Qty:    ", strong_span(format_rounded(app.ticket.qty), Color::Yellow)),
    );
    lines.push(field_line("Bid:    ", tinted_span(format_cents(bid, false), Color::Green)));
    lines.push(field_line("Ask:    ", tinted_span(format_cents(ask, false), Color::Red)));
    lines.push(field_line("Pos:    ", tinted_span(held, pnl_color(position.qty))));
    let r = TextPanel { title: "Order Ticket".to_string(), lines, wrapping: Wrapping::Trimmed };
    assert(r@.lines =~= ticket_lines(app@));
    r
}

/// The row of a position.
pub open spec fn position_row(a: AppView, i: int) -> RowView {
    let p = a.positions[i];
    RowView {
        cells: seq![
            a.instruments[i].symbol,
            rounded_text(p.qty),
            cents_text(p.average_price, false),
            cents_text(unrealized(p, a.instruments[i].price), true),
            cents_text(p.realized_pnl, true),
        ],
        style: no_style(),
    }
}

/// The table of the positions and their instruments.
pub open spec fn position_table(a: AppView) -> TableView {
    TableView {
        title: "Positions"@,
        header: heading(seq!["Symbol"@, "Qty"@, "Avg"@, "uPNL"@, "rPNL"@]),
        rows: Seq::new(paired(a), |i: int| position_row(a, i)),
        widths: seq![9u16, 7u16, 10u16, 10u16, 10u16],
    }
}

/// The panel of all positions.
pub fn positions(app: &App) -> (r: TablePanel)
    ensures
        r@ == position_table(app@),
{
    let mut rows: Vec<TableRow> = Vec::new();
    let mut i: usize = 0;
    while i < app.positions.len() && i < app.instruments.len()
        invariant
            i <= paired(app@),
            rows@.len() == i,
            forall|j: int| 0 <= j < i ==> (#[trigger] rows@[j])@ == position_row(app@, j),
        decreases app.positions@.len() - i,
    {
        let position = &app.positions[i];
        let instrument = &app.instruments[i];
        let mut cells: Vec<String> = Vec::new();
        cells.push(instrument.symbol.to_string());
        cells.push(format_rounded(position.qty));
        cells.push(format_cents(position.average_price, false));
        cells.push(format_cents(position.unrealized_pnl(instrument.price), true));
        cells.push(format_cents(position.realized_pnl, true));
        let row = TableRow { cells, style: Style { fg: None, bg: None, bold: false } };
        assert(row@.cells =~= position_row(app@, i as int).cells);
        rows.push(row);
        i = i + 1;
    }
    let mut cells: Vec<String> = Vec::new();
    cells.push("Symbol".to_string());
    cells.push("Qty".to_string());
    cells.push("Avg".to_string());
    cells.push("uPNL".to_string());
    cells.push("rPNL".to_string());
    let header = heading_row(cells);
    let mut widths: Vec<u16> = Vec::new();
    widths.push(9);
    widths.push(7);
    widths.push(10);
    widths.push(10);
    widths.push(10);
    let r = TablePanel { title: "Positions".to_string(), header, rows, widths };
    proof {
        let want = position_table(app@);
        assert(r@.header.cells =~= want.header.cells);
        assert(r@.rows =~= want.rows);
        assert(r@.widths =~= want.widths);
    }
    r
}

/// The colour of a side.
pub open spec fn side_hue(side: Side) -> Color {
    match side {
        Side::Buy => Color::Green,
        Side::Sell => Color::Red,
    }
}

/// The line of a trade.
pub open spec fn trade_line(t: TradeView) -> Seq<SpanView> {
    seq![
        styled("["@ + digits_padded(t.time_index) + "] "@, tinted(Color::DarkGray)),
        styled(t.side.name(), tinted(side_hue(t.side))),
        raw(
            " "@ + t.symbol + " "@ + rounded_text(t.qty) + " @ "@ + cents_text(t.price, false),
        ),
        raw(" "@),
        styled(cents_text(t.realized, true), tinted(hue(t.realized))),
    ]
}

/// The panel of the latest trades.
pub fn trades(app: &App) -> (r: TextPanel)
    ensures
        r@ == (TextView {
            title: "Recent Trades"@,
            lines: app@.trades.map_values(|t: TradeView| trade_line(t)),
            wrapping: Wrapping::Cut,
        }),
{
    let mut lines: Vec<Vec<Span>> = Vec::new();
    let mut i: usize = 0;
    while i < app.trades.len()
        invariant
            i <= app.trades@.len(),
            lines@.len() == i,
            forall|j: int|
                0 <= j < i ==> span_views((#[trigger] lines@[j])@) == trade_line(app@.trades[j]),
        decreases app.trades@.len() - i,
    {
        let trade = &app.trades[i];
        let mut line: Vec<Span> = Vec::new();
        let mut time = joined("[", format_padded(trade.time_index));
        time.append("] ");
        line.push(tinted_span(time, Color::DarkGray));
        line.push(tinted_str(trade.side.label(), trade.side.color()));
        let mut deal = " ".to_string();
        deal.append(trade.symbol);
        deal.append(" ");
        deal.append(format_rounded(trade.qty).as_str());
        deal.append(" @ ");
        deal.append(format_cents(trade.price, false).as_str());
        line.push(raw_span(deal));
        line.push(raw_str(" "));
        line.push(tinted_span(format_cents(trade.realized, true), pnl_color(trade.realized)));
        assert(span_views(line@) =~= trade_line(app@.trades[i as int]));
        lines.push(line);
        i = i + 1;
    }
    let r = TextPanel { title: "Recent Trades".to_string(), lines, wrapping: Wrapping::Cut };
    assert(r@.lines =~= app@.trades.map_values(|t: TradeView| trade_line(t)));
    r
}

/// The line that explains the keys.
pub open spec fn help_line() -> Seq<SpanView> {
    seq![
        styled("Hotkeys: "@, tinted(Color::Cyan)),
        raw("Tab/Left/Right switch | Up/Down qty | b buy | s sell | c close | q quit"@),
    ]
}

/// The panel with the keys and the log.
pub fn log(app: &App) -> (r: TextPanel)
    ensures
        r@ == (TextView {
            title: "Execution Log"@,
            lines: seq![help_line()] + app@.log.map_values(|t: Seq<char>| seq![raw(t)]),
            wrapping: Wrapping::Kept,
        }),
{
    let ghost want = seq![help_line()] + app@.log.map_values(|t: Seq<char>| seq![raw(t)]);
    let mut keys: Vec<Span> = Vec::new();
    keys.push(tinted_str("Hotkeys: ", Color::Cyan));
    keys.push(
        raw_str("Tab/Left/Right switch | Up/Down qty | b buy | s sell | c close | q quit"),
    );
    assert(span_views(keys@) =~= help_line());
    let mut lines: Vec<Vec<Span>> = Vec::new();
    lines.push(keys);
    let mut i: usize = 0;
    while i < app.log.len()
        invariant
            i <= app.log@.len(),
            lines@.len() == i + 1,
            want == seq![help_line()] + app@.log.map_values(|t: Seq<char>| seq![raw(t)]),
            forall|j: int| 0 <= j <= i ==> span_views((#[trigger] lines@[j])@) == want[j],
        decreases app.log@.len() - i,
    {
        let mut line: Vec<Span> = Vec::new();
        line.push(raw_str(app.log[i].as_str()));
        assert(span_views(line@) =~= want[i + 1]);
        lines.push(line);
        i = i + 1;
    }
    let r = TextPanel { title: "Execution Log".to_string(), lines, wrapping: Wrapping::Kept };
    assert(r@.lines =~= want);
    r
}

} // verus!
