//! What the screen shows, as styled text: the header, the mod list, the
//! details pane, the status and key lines, and the modals.
//!
//! Each piece of text carries a [`Tone`]; the terminal front end turns tones
//! into colours and lays the lines out. Download counts and file sizes are
//! left as numbers for the front end to write in their short decimal forms.
use vstd::prelude::*;
use crate::app::{count_top, App};
use crate::index::{spec_dep_key, spec_dep_version, Index};
use crate::paths::joined;
use crate::thunderstore::Mod;
use crate::rows::{row_in, row_views, RowView};
use crate::text::{chars_of, decimal, decimal_string, push_chars, push_str, spaces, spaces_string, string_of, utf8_width, views};

verus! {

/// How a piece of text is drawn.
#[derive(Debug, Clone, Copy, PartialEq, Eq, Structural)]
pub enum Tone {
    Plain,
    Accent,
    AccentBold,
    Dim,
    DimItalic,
    Good,
    GoodBold,
    Warn,
    WarnItalic,
    White,
    WhiteBold,
    Gray,
    GrayBold,
    /// Dark text on the accent colour, bold: the title.
    TitleBadge,
    /// Dark text on the warning colour, bold: the search box label.
    SearchBadge,
    /// Dark text on the accent colour, bold: the status label.
    StatusBadge,
    /// Dark text on the warning colour, bold: the status label while installing.
    BusyBadge,
    /// Dark text on the good colour, bold: the confirming key.
    YesBadge,
    /// Dark text on the dim colour: the cancelling key.
    NoBadge,
}

/// One run of text on a line.
pub enum Piece {
    Text { text: String, tone: Tone },
    /// A download count, written short ("1.2M ↓", "35k ↓", "900 ↓").
    Downloads { count: u64, tone: Tone },
    /// A file size in bytes, written in KB or MB.
    Size { bytes: u64, tone: Tone },
}

pub enum PieceView {
    Text(Seq<char>, Tone),
    Downloads(u64, Tone),
    Size(u64, Tone),
}

impl View for Piece {
    type V = PieceView;

    open spec fn view(&self) -> PieceView {
        match self {
            Piece::Text { text, tone } => PieceView::Text(text@, *tone),
            Piece::Downloads { count, tone } => PieceView::Downloads(*count, *tone),
            Piece::Size { bytes, tone } => PieceView::Size(*bytes, *tone),
        }
    }
}

pub open spec fn line_view(line: Seq<Piece>) -> Seq<PieceView> {
    line.map_values(|p: Piece| p@)
}

pub open spec fn lines_view(lines: Seq<Vec<Piece>>) -> Seq<Seq<PieceView>> {
    lines.map_values(|l: Vec<Piece>| line_view(l@))
}

pub open spec fn t(s: Seq<char>, tone: Tone) -> PieceView {
    PieceView::Text(s, tone)
}

/// A rectangle of the terminal, in cells.
#[derive(Debug, Clone, Copy, PartialEq, Eq, Structural)]
pub struct Area {
    pub x: u16,
    pub y: u16,
    pub width: u16,
    pub height: u16,
}

/// A box of at most `w` by `h` cells centred in `a`, leaving a margin of two
/// cells on each side where it can.
pub open spec fn spec_centered(a: Area, w: u16, h: u16) -> Area {
    let width: int = if (w as int) < a.width - 4 { w as int } else if a.width >= 4 { a.width - 4 } else { 0 };
    let height: int = if (h as int) < a.height - 4 { h as int } else if a.height >= 4 { a.height - 4 } else { 0 };
    Area {
        x: (a.x + (a.width - width) / 2) as u16,
        y: (a.y + (a.height - height) / 2) as u16,
        width: width as u16,
        height: height as u16,
    }
}

/// A box of at most `w` by `h` cells centred in `a`.
pub fn centered(a: Area, w: u16, h: u16) -> (r: Area)
    requires
        a.x + a.width <= u16::MAX,
        a.y + a.height <= u16::MAX,
    ensures
        r == spec_centered(a, w, h),
        r.x + r.width <= a.x + a.width,
        r.y + r.height <= a.y + a.height,
{
    let room_w = a.width.saturating_sub(4);
    let room_h = a.height.saturating_sub(4);
    let width = if w < room_w { w } else { room_w };
    let height = if h < room_h { h } else { room_h };
    Area {
        x: a.x + (a.width - width) / 2,
        y: a.y + (a.height - height) / 2,
        width,
        height,
    }
}

/// A count with its noun: `one` for exactly one, `many` otherwise.
pub open spec fn spec_plural(n: nat, one: Seq<char>, many: Seq<char>) -> Seq<char> {
    decimal(n) + " "@ + if n == 1 { one } else { many }
}

pub fn plural(n: usize, one: &str, many: &str) -> (r: String)
    ensures
        r@ == spec_plural(n as nat, one@, many@),
{
    let mut r = decimal_string(n as u64);
    push_str(&mut r, " ");
    push_str(&mut r, if n == 1 { one } else { many });
    r
}

/// `format!("{s:<width}")`: the text padded with spaces to `width` characters.
pub open spec fn pad(s: Seq<char>, width: nat) -> Seq<char> {
    if s.len() < width {
        s + spaces((width - s.len()) as nat)
    } else {
        s
    }
}

fn pad_chars(s: &str, width: usize) -> (r: String)
    ensures
        r@ == pad(s@, width as nat),
{
    let cs = chars_of(s);
    let mut r = String::from_str(s);
    if cs.len() < width {
        let fill = spaces_string(width - cs.len());
        push_chars(&mut r, fill.as_slice());
    }
    r
}

fn text(s: &str, tone: Tone) -> (p: Piece)
    ensures
        p@ == t(s@, tone),
{
    Piece::Text { text: String::from_str(s), tone }
}

fn owned(s: String, tone: Tone) -> (p: Piece)
    ensures
        p@ == t(s@, tone),
{
    Piece::Text { text: s, tone }
}

/// The rows of the key help, as (keys, what they do).
pub open spec fn help_rows() -> Seq<(Seq<char>, Seq<char>)> {
    seq![
        ("j / k / ↓ / ↑"@, "move up and down the list"@),
        ("l / → / tab"@, "expand a mod's dependency tree"@),
        ("h / ←"@, "collapse, or jump to the parent mod"@),
        ("g / G"@, "jump to the top or bottom"@),
        ("ctrl-d / ctrl-u"@, "half-page down and up"@),
        ("space"@, "select or deselect the mod"@),
        ("c"@, "clear the whole selection"@),
        ("enter"@, "install selection plus dependencies"@),
        ("/"@, "search name, author and description"@),
        ("f"@, "cycle the 1.0 compatibility filter"@),
        ("s"@, "cycle sort: downloads, rating, updated, name"@),
        ("r"@, "re-fetch the catalogue from Thunderstore"@),
        ("q / esc"@, "quit"@),
    ]
}

pub open spec fn help_line(row: (Seq<char>, Seq<char>)) -> Seq<PieceView> {
    seq![t("  "@ + pad(row.0, 18), Tone::AccentBold), t(row.1, Tone::Gray)]
}

/// The help modal: a blank line, one line per key, a blank line, the hint.
pub open spec fn spec_help_lines() -> Seq<Seq<PieceView>> {
    seq![Seq::<PieceView>::empty()] + help_rows().map_values(|r: (Seq<char>, Seq<char>)| help_line(r)) + seq![
        Seq::<PieceView>::empty(),
        seq![t("  press any key to close"@, Tone::DimItalic)],
    ]
}

fn help_row(i: usize) -> (r: (&'static str, &'static str))
    requires
        i < 13,
    ensures
        (r.0@, r.1@) == help_rows()[i as int],
{
    match i {
        0 => ("j / k / ↓ / ↑", "move up and down the list"),
        1 => ("l / → / tab", "expand a mod's dependency tree"),
        2 => ("h / ←", "collapse, or jump to the parent mod"),
        3 => ("g / G", "jump to the top or bottom"),
        4 => ("ctrl-d / ctrl-u", "half-page down and up"),
        5 => ("space", "select or deselect the mod"),
        6 => ("c", "clear the whole selection"),
        7 => ("enter", "install selection plus dependencies"),
        8 => ("/", "search name, author and description"),
        9 => ("f", "cycle the 1.0 compatibility filter"),
        10 => ("s", "cycle sort: downloads, rating, updated, name"),
        11 => ("r", "re-fetch the catalogue from Thunderstore"),
        _ => ("q / esc", "quit"),
    }
}

/// The lines of the key help.
pub fn help_lines() -> (r: Vec<Vec<Piece>>)
    ensures
        lines_view(r@) == spec_help_lines(),
{
    let mut r: Vec<Vec<Piece>> = Vec::new();
    let blank: Vec<Piece> = Vec::new();
    r.push(blank);
    proof {
        assert(line_view(blank@) =~= Seq::<PieceView>::empty());
        assert(lines_view(r@) =~= seq![Seq::<PieceView>::empty()] + help_rows().take(0).map_values(
            |row: (Seq<char>, Seq<char>)| help_line(row),
        ));
    }
    let mut i: usize = 0;
    while i < 13
        invariant
            i <= 13,
            lines_view(r@) == seq![Seq::<PieceView>::empty()] + help_rows().take(i as int).map_values(
                |row: (Seq<char>, Seq<char>)| help_line(row),
            ),
        decreases 13 - i,
    {
        let (k, v) = help_row(i);
        let mut lead = String::from_str("  ");
        let padded = pad_chars(k, 18);
        push_str(&mut lead, padded.as_str());
        let line = vec![owned(lead, Tone::AccentBold), text(v, Tone::Gray)];
        let ghost before = lines_view(r@);
        r.push(line);
        proof {
            assert(line_view(line@) =~= help_line(help_rows()[i as int]));
            assert(lines_view(r@) =~= before.push(line_view(line@)));
            assert(help_rows().take(i + 1) =~= help_rows().take(i as int).push(help_rows()[i as int]));
            assert(help_rows().take(i + 1).map_values(|row: (Seq<char>, Seq<char>)| help_line(row))
                =~= help_rows().take(i as int).map_values(|row: (Seq<char>, Seq<char>)| help_line(row)).push(
                help_line(help_rows()[i as int]),
            ));
        }
        i += 1;
    }
    let ghost body = lines_view(r@);
    let gap: Vec<Piece> = Vec::new();
    r.push(gap);
    let hint = vec![text("  press any key to close", Tone::DimItalic)];
    r.push(hint);
    proof {
        assert(line_view(gap@) =~= Seq::<PieceView>::empty());
        assert(line_view(hint@) =~= seq![t("  press any key to close"@, Tone::DimItalic)]);
        assert(lines_view(r@) =~= body.push(line_view(gap@)).push(line_view(hint@)));
        assert(help_rows().take(13) =~= help_rows());
        assert(lines_view(r@) =~= spec_help_lines());
    }
    r
}

/// The key hints under the status line.
pub open spec fn spec_keys_line(searching: bool) -> Seq<PieceView> {
    seq![
        t(
            " "@ + if searching {
                "type to filter   enter accept   esc clear"@
            } else {
                "j/k move  h/l collapse/expand  space select  enter install  / search  f filter  s sort  r refresh  ? help  q quit"@
            },
            Tone::Dim,
        ),
    ]
}

impl App {
    /// The title bar: the count of listed mods, the filter and sort, and how
    /// many mods are selected.
    pub open spec fn spec_header(&self) -> Seq<PieceView> {
        seq![
            t(" Valheim 1.0 Mods "@, Tone::TitleBadge),
            t(" "@, Tone::Plain),
            t(decimal(count_top(row_views(self.rows@))) + " mods"@, Tone::White),
            t("  ·  filter "@, Tone::Dim),
            t(self.filter.spec_label(), Tone::Accent),
            t("  ·  sort "@, Tone::Dim),
            t(self.sort.spec_label(), Tone::Accent),
            t("  ·  "@, Tone::Dim),
            t(
                decimal(self.selected@.len()) + " selected"@,
                if self.selected@.len() == 0 { Tone::Dim } else { Tone::Good },
            ),
        ]
    }

    /// The line under the list: the search being typed, or the status.
    pub open spec fn spec_status_line(&self) -> Seq<PieceView> {
        if self.searching {
            seq![
                t(" search "@, Tone::SearchBadge),
                t(" "@, Tone::Plain),
                t(self.query@, Tone::White),
                t("▏"@, Tone::Accent),
            ]
        } else {
            seq![
                if self.busy { t(" installing "@, Tone::BusyBadge) } else { t(" status "@, Tone::StatusBadge) },
                t(" "@, Tone::Plain),
                t(self.status@, Tone::Gray),
            ]
        }
    }

    pub fn header(&self) -> (r: Vec<Piece>)
        ensures
            line_view(r@) == self.spec_header(),
    {
        let roots = crate::app::count_top_rows(&self.rows);
        let mut count = decimal_string(roots as u64);
        push_str(&mut count, " mods");
        let n = self.selected.len();
        let mut chosen = decimal_string(n as u64);
        push_str(&mut chosen, " selected");
        let r = vec![
            text(" Valheim 1.0 Mods ", Tone::TitleBadge),
            text(" ", Tone::Plain),
            owned(count, Tone::White),
            text("  ·  filter ", Tone::Dim),
            text(self.filter.label(), Tone::Accent),
            text("  ·  sort ", Tone::Dim),
            text(self.sort.label(), Tone::Accent),
            text("  ·  ", Tone::Dim),
            owned(chosen, if n == 0 { Tone::Dim } else { Tone::Good }),
        ];
        assert(line_view(r@) =~= self.spec_header());
        r
    }

    pub fn status_line(&self) -> (r: Vec<Piece>)
        ensures
            line_view(r@) == self.spec_status_line(),
    {
        let r = if self.searching {
            vec![
                text(" search ", Tone::SearchBadge),
                text(" ", Tone::Plain),
                owned(self.query.clone(), Tone::White),
                text("▏", Tone::Accent),
            ]
        } else {
            vec![
                if self.busy { text(" installing ", Tone::BusyBadge) } else { text(" status ", Tone::StatusBadge) },
                text(" ", Tone::Plain),
                owned(self.status.clone(), Tone::Gray),
            ]
        };
        assert(line_view(r@) =~= self.spec_status_line());
        r
    }

    pub fn keys_line(&self) -> (r: Vec<Piece>)
        ensures
            line_view(r@) == spec_keys_line(self.searching),
    {
        let mut s = String::from_str(" ");
        if self.searching {
            push_str(&mut s, "type to filter   enter accept   esc clear");
        } else {
            push_str(
                &mut s,
                "j/k move  h/l collapse/expand  space select  enter install  / search  f filter  s sort  r refresh  ? help  q quit",
            );
        }
        let r = vec![owned(s, Tone::Dim)];
        assert(line_view(r@) =~= spec_keys_line(self.searching));
        r
    }
}

// ---------------------------------------------------------------------------
// The list, the details pane and the confirmation
// ---------------------------------------------------------------------------

/// An integer in decimal, with a minus sign when negative: `i64::to_string`.
pub open spec fn signed_decimal(n: int) -> Seq<char> {
    if n < 0 {
        "-"@ + decimal((-n) as nat)
    } else {
        decimal(n as nat)
    }
}

fn signed_string(n: i64) -> (r: String)
    ensures
        r@ == signed_decimal(n as int),
{
    if n < 0 {
        let mut r = String::from_str("-");
        let magnitude = (-(n as i128)) as u64;
        let digits = decimal_string(magnitude);
        push_str(&mut r, digits.as_str());
        r
    } else {
        decimal_string(n as u64)
    }
}

/// The longest start of `s` whose UTF-8 encoding fits in `n` bytes: for text
/// whose `n`th byte ends a character, the text `&s[..n]` slices.
pub open spec fn byte_prefix(s: Seq<char>, n: nat) -> Seq<char>
    decreases s.len(),
{
    if s.len() == 0 || utf8_width(s[0]) > n {
        Seq::empty()
    } else {
        seq![s[0]] + byte_prefix(s.skip(1), (n - utf8_width(s[0])) as nat)
    }
}

fn byte_prefix_of(s: &str, n: usize) -> (r: String)
    ensures
        r@ == byte_prefix(s@, n as nat),
{
    let cs = chars_of(s);
    let mut out: Vec<char> = Vec::new();
    let mut budget = n;
    let mut i: usize = 0;
    assert(cs@.skip(0) =~= cs@);
    while i < cs.len()
        invariant
            i <= cs@.len(),
            cs@ == s@,
            budget <= n,
            byte_prefix(cs@, n as nat) == out@ + byte_prefix(cs@.skip(i as int), budget as nat),
        decreases cs.len() - i,
    {
        let c = cs[i];
        let u = c as u32;
        let w: usize = if u < 0x80 {
            1
        } else if u < 0x800 {
            2
        } else if u < 0x10000 {
            3
        } else {
            4
        };
        assert(cs@.skip(i as int)[0] == c);
        assert(utf8_width(c) == w);
        if w > budget {
            assert(byte_prefix(cs@.skip(i as int), budget as nat) =~= Seq::<char>::empty());
            assert(out@ + Seq::<char>::empty() =~= out@);
            return string_of(out.as_slice());
        }
        out.push(c);
        budget = budget - w;
        assert(cs@.skip(i as int).skip(1) =~= cs@.skip(i + 1));
        assert(out@.drop_last() + (seq![c] + byte_prefix(cs@.skip(i + 1), budget as nat)) =~= out@ + byte_prefix(
            cs@.skip(i + 1),
            budget as nat,
        ));
        i += 1;
    }
    assert(cs@.skip(i as int) =~= Seq::<char>::empty());
    assert(out@ + Seq::<char>::empty() =~= out@);
    string_of(out.as_slice())
}

/// `[T]::join` on text.
pub open spec fn join_with(ss: Seq<Seq<char>>, sep: Seq<char>) -> Seq<char>
    decreases ss.len(),
{
    if ss.len() == 0 {
        Seq::empty()
    } else if ss.len() == 1 {
        ss[0]
    } else {
        join_with(ss.drop_last(), sep) + sep + ss.last()
    }
}

pub fn join_strings(ss: &Vec<String>, sep: &str) -> (r: String)
    ensures
        r@ == join_with(views(ss@), sep@),
{
    let mut r = String::new();
    let mut i: usize = 0;
    while i < ss.len()
        invariant
            i <= ss@.len(),
            r@ == join_with(views(ss@).take(i as int), sep@),
        decreases ss.len() - i,
    {
        assert(views(ss@).take(i + 1).drop_last() =~= views(ss@).take(i as int));
        if i > 0 {
            push_str(&mut r, sep);
        }
        push_str(&mut r, ss[i].as_str());
        proof {
            if i == 0 {
                assert(r@ =~= views(ss@).take(1)[0]);
            }
        }
        i += 1;
    }
    assert(views(ss@).take(i as int) =~= views(ss@));
    r
}

/// A labelled value in the details pane.
pub open spec fn field(label: Seq<char>, value: PieceView) -> Seq<PieceView> {
    seq![t(pad(label, 12), Tone::Dim), value]
}

fn field_line(label: &str, value: Piece) -> (r: Vec<Piece>)
    ensures
        line_view(r@) == field(label@, value@),
{
    let r = vec![owned(pad_chars(label, 12), Tone::Dim), value];
    assert(line_view(r@) =~= field(label@, value@));
    r
}

/// How many dependencies the details pane lists before summing up the rest.
pub const SHOWN_DEPS: usize = 14;

/// How many planned mods the confirmation lists by name.
pub const SHOWN_PLAN: usize = 10;

/// How many unpublished dependencies the confirmation lists by name.
pub const SHOWN_MISSING: usize = 4;

impl App {
    /// One line of the mod list.
    pub open spec fn spec_list_line(&self, r: RowView) -> Seq<PieceView> {
        match r.mod_idx {
            Some(i) => {
                let m = self.index.mods@[i as int];
                let picked = self.selected@.contains(m.full_name@);
                seq![
                    t(if picked { "[x] "@ } else { "[ ] "@ }, if picked { Tone::Good } else { Tone::Dim }),
                    t(r.prefix, Tone::Dim),
                    t(if !r.has_children { "  "@ } else if r.expanded { "▾ "@ } else { "▸ "@ }, Tone::Accent),
                    t(m.name@, if r.depth == 0 { Tone::WhiteBold } else { Tone::GrayBold }),
                    t(" "@ + m.version@, Tone::Dim),
                ] + (if r.depth == 0 {
                    seq![
                        t("  "@, Tone::Dim),
                        PieceView::Downloads(m.downloads, Tone::Dim),
                        t("  "@ + m.spec_signal(), if m.spec_tagged_for_v1() { Tone::Good } else { Tone::Warn }),
                    ]
                } else {
                    Seq::empty()
                }) + (if r.cycle {
                    seq![t("  ↻ already above"@, Tone::Warn)]
                } else {
                    Seq::empty()
                })
            },
            None => seq![
                t("[!] "@, Tone::Warn),
                t(r.prefix, Tone::Dim),
                t("  "@, Tone::Plain),
                t(
                    match r.missing {
                        Some(d) => d,
                        None => Seq::empty(),
                    },
                    Tone::Warn,
                ),
                t("  not on Thunderstore"@, Tone::WarnItalic),
            ],
        }
    }

    /// The lines of the mod list, one per row.
    pub open spec fn spec_list_lines(&self) -> Seq<Seq<PieceView>> {
        row_views(self.rows@).map_values(|r: RowView| self.spec_list_line(r))
    }

    fn list_line(&self, k: usize) -> (r: Vec<Piece>)
        requires
            self.wf(),
            k < self.rows@.len(),
        ensures
            line_view(r@) == self.spec_list_line(self.rows@[k as int]@),
    {
        let row = &self.rows[k];
        let mut line: Vec<Piece> = Vec::new();
        match row.mod_idx {
            Some(i) => {
                assert(row_in(self.rows@[k as int]@, self.index.mods@.len()));
                let m = self.index.get(i);
                let picked = self.selected.contains(m.full_name.as_str());
                line.push(text(if picked { "[x] " } else { "[ ] " }, if picked { Tone::Good } else { Tone::Dim }));
                line.push(owned(row.prefix.clone(), Tone::Dim));
                line.push(text(if !row.has_children { "  " } else if row.expanded { "▾ " } else { "▸ " }, Tone::Accent));
                line.push(owned(m.name.clone(), if row.depth == 0 { Tone::WhiteBold } else { Tone::GrayBold }));
                let mut version = String::from_str(" ");
                push_str(&mut version, m.version.as_str());
                line.push(owned(version, Tone::Dim));
                if row.depth == 0 {
                    line.push(text("  ", Tone::Dim));
                    line.push(Piece::Downloads { count: m.downloads, tone: Tone::Dim });
                    let mut signal = String::from_str("  ");
                    push_str(&mut signal, m.signal());
                    line.push(owned(signal, if m.tagged_for_v1() { Tone::Good } else { Tone::Warn }));
                }
                if row.cycle {
                    line.push(text("  ↻ already above", Tone::Warn));
                }
            },
            None => {
                line.push(text("[!] ", Tone::Warn));
                line.push(owned(row.prefix.clone(), Tone::Dim));
                line.push(text("  ", Tone::Plain));
                let name = match &row.missing {
                    Some(d) => d.clone(),
                    None => String::new(),
                };
                line.push(owned(name, Tone::Warn));
                line.push(text("  not on Thunderstore", Tone::WarnItalic));
            },
        }
        assert(line_view(line@) =~= self.spec_list_line(self.rows@[k as int]@));
        line
    }

    /// The lines of the mod list.
    pub fn list_lines(&self) -> (r: Vec<Vec<Piece>>)
        requires
            self.wf(),
        ensures
            lines_view(r@) == self.spec_list_lines(),
    {
        let mut r: Vec<Vec<Piece>> = Vec::new();
        let mut k: usize = 0;
        while k < self.rows.len()
            invariant
                self.wf(),
                k <= self.rows@.len(),
                lines_view(r@) == self.spec_list_lines().take(k as int),
            decreases self.rows.len() - k,
        {
            let line = self.list_line(k);
            let ghost before = lines_view(r@);
            r.push(line);
            assert(lines_view(r@) =~= before.push(line_view(line@)));
            assert(self.spec_list_lines().take(k + 1) =~= self.spec_list_lines().take(k as int).push(
                self.spec_list_line(self.rows@[k as int]@),
            ));
            k += 1;
        }
        assert(self.spec_list_lines().take(k as int) =~= self.spec_list_lines());
        r
    }
}

fn push_line(r: &mut Vec<Vec<Piece>>, line: Vec<Piece>)
    ensures
        lines_view(final(r)@) == lines_view(old(r)@).push(line_view(line@)),
{
    let ghost before = lines_view(r@);
    r.push(line);
    assert(lines_view(r@) =~= before.push(line_view(line@)));
}

fn push_blank(r: &mut Vec<Vec<Piece>>)
    ensures
        lines_view(final(r)@) == lines_view(old(r)@).push(Seq::<PieceView>::empty()),
{
    let blank: Vec<Piece> = Vec::new();
    assert(line_view(blank@) =~= Seq::<PieceView>::empty());
    push_line(r, blank);
}

/// The details pane: a short note when no published mod is under the
/// cursor, or the mod's details.
pub enum Detail {
    Note(String),
    Lines(Vec<Vec<Piece>>),
}

pub enum DetailView {
    Note(Seq<char>),
    Lines(Seq<Seq<PieceView>>),
}

impl View for Detail {
    type V = DetailView;

    open spec fn view(&self) -> DetailView {
        match self {
            Detail::Note(s) => DetailView::Note(s@),
            Detail::Lines(ls) => DetailView::Lines(lines_view(ls@)),
        }
    }
}

/// One dependency in the details pane: unpublished ones stand out.
pub open spec fn dep_line(index: Index, d: String) -> Seq<PieceView> {
    let key = spec_dep_key(d@);
    seq![
        t("  • "@, Tone::Dim),
        t(key, if index.spec_lookup(key) is Some { Tone::Gray } else { Tone::Warn }),
        t(" "@ + spec_dep_version(d@), Tone::Dim),
    ]
}

pub open spec fn shown(n: nat, limit: nat) -> nat {
    if n < limit {
        n
    } else {
        limit
    }
}

/// The details of a mod.
pub open spec fn mod_lines(index: Index, m: Mod) -> Seq<Seq<PieceView>> {
    let deps = m.dependencies@;
    seq![
        seq![t(m.name@, Tone::WhiteBold)],
        seq![t("by "@ + m.owner@ + "  ·  v"@ + m.version@, Tone::Dim)],
        Seq::<PieceView>::empty(),
        seq![t(m.description@, Tone::Plain)],
        Seq::<PieceView>::empty(),
        field("updated"@, t(byte_prefix(m.date_updated@, 10), Tone::Gray)),
        field("downloads"@, PieceView::Downloads(m.downloads, Tone::Gray)),
        field("rating"@, t(signed_decimal(m.rating as int), Tone::Gray)),
        field("size"@, PieceView::Size(m.file_size, Tone::Gray)),
        field("1.0 signal"@, t(m.spec_signal(), Tone::Gray)),
    ] + (if m.categories@.len() > 0 {
        seq![field("categories"@, t(join_with(views(m.categories@), ", "@), Tone::Gray))]
    } else {
        Seq::empty()
    }) + seq![
        Seq::<PieceView>::empty(),
        seq![t("dependencies ("@ + decimal(deps.len()) + ")"@, Tone::AccentBold)],
    ] + (if deps.len() == 0 {
        seq![seq![t("  none"@, Tone::Dim)]]
    } else {
        Seq::empty()
    }) + deps.take(shown(deps.len(), 14) as int).map_values(|d: String| dep_line(index, d)) + (if deps.len() > 14 {
        seq![seq![t("  … and "@ + decimal((deps.len() - 14) as nat) + " more"@, Tone::Dim)]]
    } else {
        Seq::empty()
    })
}

/// A mod queued in the confirmation.
pub open spec fn plan_line(m: Mod) -> Seq<PieceView> {
    seq![t("    • "@, Tone::Dim), t(m.full_name@, Tone::Gray), t(" "@ + m.version@, Tone::Dim)]
}

pub open spec fn missing_line(d: Seq<char>) -> Seq<PieceView> {
    seq![t("    ! "@ + d, Tone::Warn)]
}

impl App {
    pub open spec fn spec_detail(&self) -> DetailView {
        match self.current_idx() {
            Some(i) => DetailView::Lines(mod_lines(self.index, self.index.mods@[i as int])),
            None => DetailView::Note(
                match self.spec_current() {
                    Some(r) => match r.missing {
                        Some(d) => "\n  "@ + d
                            + "\n\n  This dependency is not published on\n  Thunderstore and cannot be installed\n  automatically."@,
                        None => "\n  nothing here"@,
                    },
                    None => "\n  nothing here"@,
                },
            ),
        }
    }

    /// The details pane.
    pub fn detail(&self) -> (r: Detail)
        requires
            self.wf(),
        ensures
            r@ == self.spec_detail(),
    {
        let i = match self.current_index() {
            Some(i) => i,
            None => {
                let missing = match self.current() {
                    Some(row) => match &row.missing {
                        Some(d) => Some(d.clone()),
                        None => None,
                    },
                    None => None,
                };
                return match missing {
                    Some(d) => {
                        let mut s = String::from_str("\n  ");
                        push_str(&mut s, d.as_str());
                        push_str(
                            &mut s,
                            "\n\n  This dependency is not published on\n  Thunderstore and cannot be installed\n  automatically.",
                        );
                        Detail::Note(s)
                    },
                    None => Detail::Note(String::from_str("\n  nothing here")),
                };
            },
        };
        assert(row_in(self.rows@[self.cursor as int]@, self.index.mods@.len()));
        let m = self.index.get(i);
        let mut r: Vec<Vec<Piece>> = Vec::new();
        push_line(&mut r, vec![owned(m.name.clone(), Tone::WhiteBold)]);
        let mut by = String::from_str("by ");
        push_str(&mut by, m.owner.as_str());
        push_str(&mut by, "  ·  v");
        push_str(&mut by, m.version.as_str());
        push_line(&mut r, vec![owned(by, Tone::Dim)]);
        push_blank(&mut r);
        push_line(&mut r, vec![owned(m.description.clone(), Tone::Plain)]);
        push_blank(&mut r);
        push_line(&mut r, field_line("updated", owned(byte_prefix_of(m.date_updated.as_str(), 10), Tone::Gray)));
        push_line(&mut r, field_line("downloads", Piece::Downloads { count: m.downloads, tone: Tone::Gray }));
        push_line(&mut r, field_line("rating", owned(signed_string(m.rating), Tone::Gray)));
        push_line(&mut r, field_line("size", Piece::Size { bytes: m.file_size, tone: Tone::Gray }));
        push_line(&mut r, field_line("1.0 signal", text(m.signal(), Tone::Gray)));
        let ghost head = lines_view(r@);
        let ghost mv = self.index.mods@[i as int];
        assert(head =~~= seq![
            seq![t(mv.name@, Tone::WhiteBold)],
            seq![t("by "@ + mv.owner@ + "  ·  v"@ + mv.version@, Tone::Dim)],
            Seq::<PieceView>::empty(),
            seq![t(mv.description@, Tone::Plain)],
            Seq::<PieceView>::empty(),
            field("updated"@, t(byte_prefix(mv.date_updated@, 10), Tone::Gray)),
            field("downloads"@, PieceView::Downloads(mv.downloads, Tone::Gray)),
            field("rating"@, t(signed_decimal(mv.rating as int), Tone::Gray)),
            field("size"@, PieceView::Size(mv.file_size, Tone::Gray)),
            field("1.0 signal"@, t(mv.spec_signal(), Tone::Gray)),
        ]);
        if m.categories.len() > 0 {
            push_line(&mut r, field_line("categories", owned(join_strings(&m.categories, ", "), Tone::Gray)));
        }
        push_blank(&mut r);
        let deps = &m.dependencies;
        let mut title = String::from_str("dependencies (");
        let count = decimal_string(deps.len() as u64);
        push_str(&mut title, count.as_str());
        push_str(&mut title, ")");
        push_line(&mut r, vec![owned(title, Tone::AccentBold)]);
        if deps.len() == 0 {
            push_line(&mut r, vec![text("  none", Tone::Dim)]);
        }
        let ghost before_deps = lines_view(r@);
        assert(before_deps =~~= head + (if mv.categories@.len() > 0 {
            seq![field("categories"@, t(join_with(views(mv.categories@), ", "@), Tone::Gray))]
        } else {
            Seq::empty()
        }) + seq![
            Seq::<PieceView>::empty(),
            seq![t("dependencies ("@ + decimal(mv.dependencies@.len()) + ")"@, Tone::AccentBold)],
        ] + (if mv.dependencies@.len() == 0 {
            seq![seq![t("  none"@, Tone::Dim)]]
        } else {
            Seq::empty()
        }));
        let limit = if deps.len() < SHOWN_DEPS { deps.len() } else { SHOWN_DEPS };
        let mut j: usize = 0;
        while j < limit
            invariant
                j <= limit <= deps@.len(),
                limit == shown(deps@.len(), 14),
                lines_view(r@) == before_deps + deps@.take(j as int).map_values(|d: String| dep_line(self.index, d)),
            decreases limit - j,
        {
            let d = deps[j].as_str();
            let key = Index::dep_key(d);
            let known = self.index.lookup(key).is_some();
            let mut version = String::from_str(" ");
            push_str(&mut version, Index::dep_version(d));
            let line = vec![
                text("  • ", Tone::Dim),
                text(key, if known { Tone::Gray } else { Tone::Warn }),
                owned(version, Tone::Dim),
            ];
            assert(line_view(line@) =~= dep_line(self.index, deps@[j as int]));
            push_line(&mut r, line);
            assert(deps@.take(j + 1) =~= deps@.take(j as int).push(deps@[j as int]));
            assert(deps@.take(j + 1).map_values(|d: String| dep_line(self.index, d)) =~= deps@.take(j as int).map_values(
                |d: String| dep_line(self.index, d),
            ).push(dep_line(self.index, deps@[j as int])));
            j += 1;
        }
        if deps.len() > SHOWN_DEPS {
            let mut more = String::from_str("  … and ");
            let n = decimal_string((deps.len() - SHOWN_DEPS) as u64);
            push_str(&mut more, n.as_str());
            push_str(&mut more, " more");
            push_line(&mut r, vec![owned(more, Tone::Dim)]);
        }
        proof {
            assert(lines_view(r@) =~~= mod_lines(self.index, self.index.mods@[i as int]));
        }
        Detail::Lines(r)
    }

    /// The head of the confirmation: how many mods, split into those chosen
    /// and their dependencies, and where they go.
    pub open spec fn confirm_head(&self, plan: Seq<usize>) -> Seq<Seq<PieceView>> {
        let direct: nat = if self.selected@.len() > 1 { self.selected@.len() } else { 1 };
        let extra: nat = if plan.len() > direct { (plan.len() - direct) as nat } else { 0 };
        let target = match self.layout {
            Some(l) => joined(l.bepinex@, "plugins"@),
            None => Seq::empty(),
        };
        seq![
            Seq::<PieceView>::empty(),
            seq![
                t("  installing "@, Tone::Gray),
                t(decimal(plan.len()) + " mods"@, Tone::GoodBold),
                t(" ("@ + decimal(direct) + " chosen + "@ + spec_plural(extra, "dependency"@, "dependencies"@) + ")"@, Tone::Dim),
            ],
            Seq::<PieceView>::empty(),
            seq![t("  into  "@, Tone::Dim), t(target, Tone::White)],
            Seq::<PieceView>::empty(),
        ]
    }

    /// The first planned mods by name, and how many more there are.
    pub open spec fn plan_lines(&self, plan: Seq<usize>) -> Seq<Seq<PieceView>> {
        plan.take(shown(plan.len(), 10) as int).map_values(|k: usize| plan_line(self.index.mods@[k as int])) + (
        if plan.len() > 10 {
            seq![seq![t("    … and "@ + decimal((plan.len() - 10) as nat) + " more"@, Tone::Dim)]]
        } else {
            Seq::empty()
        })
    }

    /// A warning when BepInEx itself is not installed yet.
    pub open spec fn note_lines(&self, bepinex_present: bool) -> Seq<Seq<PieceView>> {
        if self.layout is Some && !bepinex_present {
            seq![
                Seq::<PieceView>::empty(),
                seq![t("  note: no BepInEx directory here yet — it will be created."@, Tone::Warn)],
            ]
        } else {
            Seq::empty()
        }
    }

    /// The confirmation of an install plan. `bepinex_present` says whether
    /// the layout's BepInEx directory exists yet.
    pub open spec fn spec_confirm_lines(&self, plan: Seq<usize>, missing: Seq<Seq<char>>, bepinex_present: bool) -> Seq<
        Seq<PieceView>,
    > {
        self.confirm_head(plan) + self.plan_lines(plan) + self.note_lines(bepinex_present) + missing_lines(missing)
            + confirm_footer()
    }

    fn append_head(&self, r: &mut Vec<Vec<Piece>>, plan: &[usize])
        ensures
            lines_view(final(r)@) =~~= lines_view(old(r)@) + self.confirm_head(plan@),
    {
        let ghost start = lines_view(r@);
        let chosen = self.selected.len();
        let direct = if chosen > 1 { chosen } else { 1 };
        let extra = if plan.len() > direct { plan.len() - direct } else { 0 };
        let target = match &self.layout {
            Some(l) => l.plugins(),
            None => String::new(),
        };
        push_blank(r);
        let mut count = decimal_string(plan.len() as u64);
        push_str(&mut count, " mods");
        let mut split = String::from_str(" (");
        let d = decimal_string(direct as u64);
        push_str(&mut split, d.as_str());
        push_str(&mut split, " chosen + ");
        let deps = plural(extra, "dependency", "dependencies");
        push_str(&mut split, deps.as_str());
        push_str(&mut split, ")");
        push_line(r, vec![text("  installing ", Tone::Gray), owned(count, Tone::GoodBold), owned(split, Tone::Dim)]);
        push_blank(r);
        push_line(r, vec![text("  into  ", Tone::Dim), owned(target, Tone::White)]);
        push_blank(r);
    }

    fn append_plan(&self, r: &mut Vec<Vec<Piece>>, plan: &[usize])
        requires
            forall|k: int| 0 <= k < plan@.len() ==> #[trigger] plan@[k] < self.index.mods@.len(),
        ensures
            lines_view(final(r)@) =~~= lines_view(old(r)@) + self.plan_lines(plan@),
    {
        let ghost head = lines_view(r@);
        let limit = if plan.len() < SHOWN_PLAN { plan.len() } else { SHOWN_PLAN };
        let mut j: usize = 0;
        while j < limit
            invariant
                j <= limit <= plan@.len(),
                limit == shown(plan@.len(), 10),
                forall|k: int| 0 <= k < plan@.len() ==> #[trigger] plan@[k] < self.index.mods@.len(),
                lines_view(r@) == head + plan@.take(j as int).map_values(|k: usize| plan_line(self.index.mods@[k as int])),
            decreases limit - j,
        {
            let m = self.index.get(plan[j]);
            let mut version = String::from_str(" ");
            push_str(&mut version, m.version.as_str());
            let line = vec![text("    • ", Tone::Dim), owned(m.full_name.clone(), Tone::Gray), owned(version, Tone::Dim)];
            assert(line_view(line@) =~= plan_line(self.index.mods@[plan@[j as int] as int]));
            push_line(r, line);
            assert(plan@.take(j + 1) =~= plan@.take(j as int).push(plan@[j as int]));
            assert(plan@.take(j + 1).map_values(|k: usize| plan_line(self.index.mods@[k as int])) =~= plan@.take(
                j as int,
            ).map_values(|k: usize| plan_line(self.index.mods@[k as int])).push(
                plan_line(self.index.mods@[plan@[j as int] as int]),
            ));
            j += 1;
        }
        if plan.len() > SHOWN_PLAN {
            let mut more = String::from_str("    … and ");
            let n = decimal_string((plan.len() - SHOWN_PLAN) as u64);
            push_str(&mut more, n.as_str());
            push_str(&mut more, " more");
            push_line(r, vec![owned(more, Tone::Dim)]);
        }
    }

    pub fn confirm_lines(&self, plan: &[usize], missing: &[String], bepinex_present: bool) -> (r: Vec<Vec<Piece>>)
        requires
            forall|k: int| 0 <= k < plan@.len() ==> #[trigger] plan@[k] < self.index.mods@.len(),
        ensures
            lines_view(r@) == self.spec_confirm_lines(plan@, views(missing@), bepinex_present),
    {
        let mut r: Vec<Vec<Piece>> = Vec::new();
        assert(lines_view(r@) =~= Seq::<Seq<PieceView>>::empty());
        self.append_head(&mut r, plan);
        self.append_plan(&mut r, plan);
        let ghost before_note = lines_view(r@);
        if self.layout.is_some() && !bepinex_present {
            push_blank(&mut r);
            push_line(&mut r, vec![text("  note: no BepInEx directory here yet — it will be created.", Tone::Warn)]);
        }
        assert(lines_view(r@) =~~= before_note + self.note_lines(bepinex_present));
        append_missing(&mut r, missing);
        append_footer(&mut r);
        assert(lines_view(r@) =~~= self.spec_confirm_lines(plan@, views(missing@), bepinex_present));
        r
    }
}

/// The unpublished dependencies the install skips, the first few by name.
pub open spec fn missing_lines(missing: Seq<Seq<char>>) -> Seq<Seq<PieceView>> {
    if missing.len() > 0 {
        seq![
            Seq::<PieceView>::empty(),
            seq![
                t(
                    "  "@ + spec_plural(missing.len(), "dependency is"@, "dependencies are"@)
                        + " not on Thunderstore, and will be skipped:"@,
                    Tone::Warn,
                ),
            ],
        ] + missing.take(shown(missing.len(), 4) as int).map_values(|d: Seq<char>| missing_line(d))
    } else {
        Seq::empty()
    }
}

/// The keys that answer the confirmation.
pub open spec fn confirm_footer() -> Seq<Seq<PieceView>> {
    seq![
        Seq::<PieceView>::empty(),
        seq![
            t("  enter/y "@, Tone::YesBadge),
            t(" install    "@, Tone::Dim),
            t(" any other key "@, Tone::NoBadge),
            t(" cancel"@, Tone::Dim),
        ],
    ]
}

fn append_missing(r: &mut Vec<Vec<Piece>>, missing: &[String])
    ensures
        lines_view(final(r)@) =~~= lines_view(old(r)@) + missing_lines(views(missing@)),
{
    let ghost start = lines_view(r@);
    if missing.len() == 0 {
        return;
    }
    push_blank(r);
    let mut head_line = String::from_str("  ");
    let p = plural(missing.len(), "dependency is", "dependencies are");
    push_str(&mut head_line, p.as_str());
    push_str(&mut head_line, " not on Thunderstore, and will be skipped:");
    push_line(r, vec![owned(head_line, Tone::Warn)]);
    let ghost before_missing = lines_view(r@);
    let mlimit = if missing.len() < SHOWN_MISSING { missing.len() } else { SHOWN_MISSING };
    let mut q: usize = 0;
    while q < mlimit
        invariant
            q <= mlimit <= missing@.len(),
            mlimit == shown(missing@.len(), 4),
            lines_view(r@) == before_missing + views(missing@).take(q as int).map_values(|d: Seq<char>| missing_line(d)),
        decreases mlimit - q,
    {
        let mut line_text = String::from_str("    ! ");
        push_str(&mut line_text, missing[q].as_str());
        let line = vec![owned(line_text, Tone::Warn)];
        assert(line_view(line@) =~= missing_line(views(missing@)[q as int]));
        push_line(r, line);
        assert(views(missing@).take(q + 1) =~= views(missing@).take(q as int).push(views(missing@)[q as int]));
        assert(views(missing@).take(q + 1).map_values(|d: Seq<char>| missing_line(d)) =~= views(missing@).take(
            q as int,
        ).map_values(|d: Seq<char>| missing_line(d)).push(missing_line(views(missing@)[q as int])));
        q += 1;
    }
}

fn append_footer(r: &mut Vec<Vec<Piece>>)
    ensures
        lines_view(final(r)@) =~~= lines_view(old(r)@) + confirm_footer(),
{
    push_blank(r);
    push_line(
        r,
        vec![
            text("  enter/y ", Tone::YesBadge),
            text(" install    ", Tone::Dim),
            text(" any other key ", Tone::NoBadge),
            text(" cancel", Tone::Dim),
        ],
    );
}

/// The title of the list pane.
pub const LIST_TITLE: &'static str = " mods ";

/// The title of the details pane.
pub const DETAIL_TITLE: &'static str = " details ";

/// The title of the key help.
pub const HELP_TITLE: &'static str = " keys ";

/// The title of the install confirmation.
pub const CONFIRM_TITLE: &'static str = " confirm install ";

/// What the list pane says while the catalogue is fetched.
pub const LOADING_NOTE: &'static str = "\n  fetching the Thunderstore catalogue…";

/// Selection is by full name: once a mod is selected from any row, every row
/// that shows a mod of that name reads as selected, wherever it sits in the
/// tree.
pub proof fn lemma_selection_follows_the_mod(a: App, b: App, r: RowView)
    requires
        a.wf(),
        App::toggle_select_step(a, b),
        a.current_idx() matches Some(i) && !a.selected@.contains(a.index.mods@[i as int].full_name@),
        r.mod_idx matches Some(j) && b.index.mods@[j as int].full_name@ == a.index.mods@[a.current_idx()->0 as int].full_name@,
    ensures
        b.spec_list_line(r)[0] == t("[x] "@, Tone::Good),
{
}

/// A row of an unpublished dependency offers no checkbox to tick.
pub proof fn lemma_missing_rows_are_flagged(a: App, r: RowView)
    requires
        r.mod_idx is None,
    ensures
        a.spec_list_line(r)[0] == t("[!] "@, Tone::Warn),
        a.spec_list_line(r).last() == t("  not on Thunderstore"@, Tone::WarnItalic),
{
}

} // verus!
