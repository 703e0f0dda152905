//! Decorations: styling and replacement applied to ranges of the document.
//!
//! Decorations are *not* part of the document. The markdown providers of this
//! crate produce them and the view layer consumes them at paint time. Sizes
//! that a painter scales by are held as whole numbers: a scale in thousandths
//! of the base size, an indent or a block height in logical pixels.

use vstd::prelude::*;

verus! {

/// Severity of a [`Diagnostic`], ordered from most to least critical.
#[derive(Clone, Copy, Debug, PartialEq, Eq, Hash)]
pub enum Severity {
    Error,
    Warning,
    Info,
    Hint,
}

/// A structured lint/error report attached to a byte range of the document.
#[derive(Debug, PartialEq, Eq)]
pub struct Diagnostic {
    /// Byte range in the document this diagnostic applies to.
    pub range: std::ops::Range<usize>,
    pub severity: Severity,
    pub message: String,
    /// Producer identifier, e.g. "rustc", "clippy", "tree-sitter".
    pub source: String,
    /// Optional machine-readable code, e.g. "E0308".
    pub code: Option<String>,
}

impl Clone for Diagnostic {
    fn clone(&self) -> (d: Diagnostic)
        ensures
            d == *self,
    {
        Diagnostic {
            range: copy_range(&self.range),
            severity: self.severity,
            message: self.message.clone(),
            source: self.source.clone(),
            code: match &self.code {
                Some(c) => Some(c.clone()),
                None => None,
            },
        }
    }
}

/// A copy of a byte range.
pub fn copy_range(r: &std::ops::Range<usize>) -> (c: std::ops::Range<usize>)
    ensures
        c == *r,
{
    r.start..r.end
}

/// A borrowed, tightly-packed RGBA8 pixel buffer supplied by a pixel widget:
/// `rgba.len() == width * height * 4` when well formed.
pub struct WidgetPixels<'a> {
    pub rgba: &'a [u8],
    pub width: u32,
    pub height: u32,
}

/// An RGBA8 color.
#[derive(Clone, Copy, Debug, PartialEq, Eq, Structural, Hash)]
pub struct Color {
    pub r: u8,
    pub g: u8,
    pub b: u8,
    pub a: u8,
}

impl Color {
    /// A fully opaque color.
    pub fn rgb(r: u8, g: u8, b: u8) -> (c: Color)
        ensures
            c == (Color { r, g, b, a: 255 }),
    {
        Color { r, g, b, a: 255 }
    }

    /// A color with an explicit alpha.
    pub fn rgba(r: u8, g: u8, b: u8, a: u8) -> (c: Color)
        ensures
            c == (Color { r, g, b, a }),
    {
        Color { r, g, b, a }
    }

    /// Fully transparent black.
    pub fn transparent() -> (c: Color)
        ensures
            c == (Color { r: 0, g: 0, b: 0, a: 0 }),
    {
        Color { r: 0, g: 0, b: 0, a: 0 }
    }
}

/// Text shown in place of an inline widget, with its colors.
#[derive(Clone, Debug, PartialEq, Eq)]
pub struct InlineWidgetDisplay {
    pub text: String,
    pub bg: Option<Color>,
    pub fg: Option<Color>,
    pub strikethrough: bool,
}

/// Horizontal alignment of a positioned text run: the run starts at, is
/// centered on, or ends at its anchor.
#[derive(Clone, Copy, Debug, PartialEq, Eq)]
pub enum TextAlign {
    Left,
    Center,
    Right,
}

/// One styled inline run of plain text (markers already stripped).
#[derive(Clone, Debug, PartialEq, Eq)]
pub struct StyledRun {
    pub text: String,
    pub color: Color,
    pub bold: bool,
    pub italic: bool,
    pub strike: bool,
    pub underline: bool,
    /// Render in a monospace family with a faint background box (inline code).
    pub code: bool,
    /// Optional run background. `None` = transparent.
    pub bg: Option<Color>,
}

impl StyledRun {
    /// A plain (unstyled) run carrying just `text` in `color`; every flag off.
    pub fn plain(text: String, color: Color) -> (r: StyledRun)
        ensures
            r.text == text,
            r.color == color,
            !r.bold && !r.italic && !r.strike && !r.underline && !r.code,
            r.bg.is_none(),
    {
        StyledRun {
            text,
            color,
            bold: false,
            italic: false,
            strike: false,
            underline: false,
            code: false,
            bg: None,
        }
    }
}

/// Inline styling of a byte range.
#[derive(Clone, Debug, PartialEq, Eq)]
pub struct MarkStyle {
    pub bold: bool,
    pub italic: bool,
    pub strikethrough: bool,
    pub underline: bool,
    pub fg: Option<Color>,
    pub bg: Option<Color>,
    /// Font scale in thousandths of the base size (1000 == base size).
    pub font_scale: Option<u32>,
    pub monospace: bool,
    /// Cursor motion treats the marked range as one indivisible unit.
    pub atomic: bool,
}

impl MarkStyle {
    /// Every flag off and no color or scale.
    pub open spec fn spec_plain() -> MarkStyle {
        MarkStyle {
            bold: false,
            italic: false,
            strikethrough: false,
            underline: false,
            fg: None,
            bg: None,
            font_scale: None,
            monospace: false,
            atomic: false,
        }
    }

    pub fn plain() -> (m: MarkStyle)
        ensures
            m == Self::spec_plain(),
    {
        MarkStyle {
            bold: false,
            italic: false,
            strikethrough: false,
            underline: false,
            fg: None,
            bg: None,
            font_scale: None,
            monospace: false,
            atomic: false,
        }
    }
}

impl Default for MarkStyle {
    fn default() -> (m: MarkStyle)
        ensures
            m == MarkStyle::spec_plain(),
    {
        MarkStyle::plain()
    }
}

/// A clickable fold chevron in the gutter.
#[derive(Clone, Copy, Debug, PartialEq, Eq)]
pub struct FoldChevron {
    pub id: u64,
    pub collapsed: bool,
}

/// A marker painted in the gutter of a line.
#[derive(Clone, Debug, PartialEq, Eq)]
pub enum GutterMarker {
    DiffAdded,
    DiffRemoved,
    DiffModified,
    Bookmark,
    Diagnostic(Severity),
    Custom(String),
}

/// Whole-line styling.
#[derive(Clone, Debug, PartialEq, Eq)]
pub struct LineStyle {
    pub bg: Option<Color>,
    /// Line height in thousandths of the base line height; above 1000 makes
    /// the line taller.
    pub height_scale: Option<u32>,
    /// Left indent in logical pixels (host-resolved).
    pub indent: Option<u32>,
    pub gutter_marker: Option<GutterMarker>,
    /// The line is hidden entirely (folds).
    pub hide: bool,
    /// Show a clickable fold chevron in the gutter on this line.
    pub fold_chevron: Option<FoldChevron>,
}

impl Default for LineStyle {
    fn default() -> (l: LineStyle)
        ensures
            l == LineStyle::spec_plain(),
    {
        LineStyle {
            bg: None,
            height_scale: None,
            indent: None,
            gutter_marker: None,
            hide: false,
            fold_chevron: None,
        }
    }
}

impl LineStyle {
    /// A line style that changes nothing.
    pub open spec fn spec_plain() -> LineStyle {
        LineStyle {
            bg: None,
            height_scale: None,
            indent: None,
            gutter_marker: None,
            hide: false,
            fold_chevron: None,
        }
    }

    /// A line style that only tints the background.
    pub open spec fn spec_tinted(bg: Color) -> LineStyle {
        LineStyle {
            bg: Some(bg),
            height_scale: None,
            indent: None,
            gutter_marker: None,
            hide: false,
            fold_chevron: None,
        }
    }

    pub fn tinted(bg: Color) -> (l: LineStyle)
        ensures
            l == Self::spec_tinted(bg),
    {
        LineStyle {
            bg: Some(bg),
            height_scale: None,
            indent: None,
            gutter_marker: None,
            hide: false,
            fold_chevron: None,
        }
    }
}

/// Side of a line a block is injected on.
#[derive(Clone, Copy, Debug, PartialEq, Eq, Structural)]
pub enum BlockSide {
    Above,
    Below,
}

/// Tone of an action row.
#[derive(Clone, Copy, Debug, PartialEq, Eq)]
pub enum ActionTone {
    Normal,
    Warning,
    Conflicted,
}

/// Style of a button in an action row.
#[derive(Clone, Copy, Debug, PartialEq, Eq)]
pub enum ActionButtonStyle {
    Primary,
    Danger,
    Neutral,
}

/// A clickable button of an action row.
#[derive(Clone, Debug, PartialEq, Eq)]
pub struct ActionButton {
    pub id: u64,
    pub label: String,
    pub style: ActionButtonStyle,
    pub enabled: bool,
}

/// One rendered text row of a [`BlockKind::Text`] block.
#[derive(Clone, Debug, PartialEq, Eq)]
pub struct BlockTextLine {
    pub text: String,
    pub bg: Option<Color>,
    pub fg: Option<Color>,
    pub gutter_marker: Option<GutterMarker>,
    /// Intraline byte ranges (within `text`) to emphasize with a bg color.
    pub marks: Vec<(std::ops::Range<usize>, Color)>,
    pub strikethrough: bool,
}

/// What a block decoration draws.
#[derive(Clone, Debug, PartialEq, Eq)]
pub enum BlockKind {
    /// Diagonal-stripe hatched fill.
    Hatched(Color),
    /// Solid fill.
    Solid(Color),
    /// Rendered text rows.
    Text { lines: Vec<BlockTextLine> },
    /// Clickable bar that toggles a fold.
    Expander { id: u64, label: String, collapsed: bool },
    /// Label on the left and clickable buttons on the right.
    ActionRow {
        label: String,
        glyph: Option<String>,
        tone: ActionTone,
        buttons: Vec<ActionButton>,
    },
}

/// Vertical space injected above or below a line.
#[derive(Clone, Debug, PartialEq, Eq)]
pub struct BlockDeco {
    pub side: BlockSide,
    /// Height in logical pixels.
    pub height: u32,
    pub kind: BlockKind,
}

/// The clickable pill a link collapses to: its label text and colors, and the
/// id a click on it reports.
#[derive(Clone, Debug, PartialEq, Eq)]
pub struct WikilinkWidget {
    pub text: String,
    pub fg: Color,
    pub bg: Option<Color>,
    pub id: u64,
}

impl WikilinkWidget {
    /// Clicks land on the pill.
    pub fn handles_click(&self) -> (r: bool)
        ensures
            r,
    {
        true
    }

    /// The id a click on the pill reports.
    pub fn widget_id(&self) -> (r: u64)
        ensures
            r == self.id,
    {
        self.id
    }

    /// The pill renders as its label text in its colors, never struck through.
    pub fn display(&self) -> (d: InlineWidgetDisplay)
        ensures
            d.text == self.text,
            d.bg == self.bg,
            d.fg == Some(self.fg),
            !d.strikethrough,
    {
        InlineWidgetDisplay {
            text: self.text.clone(),
            bg: self.bg,
            fg: Some(self.fg),
            strikethrough: false,
        }
    }
}

/// A decoration applied to a byte range.
#[derive(Clone, Debug, PartialEq, Eq)]
pub enum Decoration {
    /// Inline styling applied to a byte range.
    Mark(MarkStyle),
    /// Whole-line styling; the range covers one line.
    Line(LineStyle),
    /// Hide the underlying text and (optionally) render `display` instead.
    Replace { display: Option<String> },
    /// Inject vertical space above or below the line at the range start.
    Block(BlockDeco),
    /// An inline widget; `atomic` makes cursor motion treat it as one unit.
    InlineWidget { widget: WikilinkWidget, atomic: bool },
    /// An inline widget of the host (a rendered formula, say), identified by
    /// its widget id, which the host measures and paints; `atomic` as above.
    HostInlineWidget { widget_id: u64, atomic: bool },
    /// A block widget, identified by its widget id.
    BlockWidget { side: BlockSide, widget_id: u64 },
}

impl Decoration {
    /// A decoration affects line height when it hides a line, scales its
    /// height, or injects a vertical block above/below it.
    pub open spec fn spec_affects_height(&self) -> bool {
        match self {
            Decoration::Line(l) => l.hide || l.height_scale is Some,
            Decoration::Block(_) => true,
            Decoration::BlockWidget { .. } => true,
            _ => false,
        }
    }

    pub fn affects_height(&self) -> (r: bool)
        ensures
            r == self.spec_affects_height(),
    {
        match self {
            Decoration::Line(l) => l.hide || l.height_scale.is_some(),
            Decoration::Block(_) => true,
            Decoration::BlockWidget { .. } => true,
            _ => false,
        }
    }
}

/// An ordered collection of decorations, each attached to a byte range, in
/// the order the provider produced them.
#[derive(Clone, Debug, PartialEq, Eq)]
pub struct DecorationSet {
    pub entries: Vec<(std::ops::Range<usize>, Decoration)>,
}

impl DecorationSet {
    pub fn from_entries(entries: Vec<(std::ops::Range<usize>, Decoration)>) -> (s: DecorationSet)
        ensures
            s.entries@ == entries@,
    {
        DecorationSet { entries }
    }

    /// Number of decorations in the set.
    pub fn len(&self) -> (n: usize)
        ensures
            n == self.entries@.len(),
    {
        self.entries.len()
    }

    /// True when some decoration of the set affects line height.
    pub fn affects_height(&self) -> (r: bool)
        ensures
            r == exists|i: int|
                0 <= i < self.entries@.len() && #[trigger] self.entries@[i].1.spec_affects_height(),
    {
        let mut i: usize = 0;
        while i < self.entries.len()
            invariant
                i <= self.entries@.len(),
                forall|k: int| 0 <= k < i ==> !#[trigger] self.entries@[k].1.spec_affects_height(),
            decreases self.entries@.len() - i,
        {
            if self.entries[i].1.affects_height() {
                return true;
            }
            i = i + 1;
        }
        false
    }
}

/// `entries` holds exactly the decorations `expected`, in order, each given
/// as `(start, end, decoration)`.
pub open spec fn entries_are(
    entries: Seq<(std::ops::Range<usize>, Decoration)>,
    expected: Seq<(int, int, Decoration)>,
) -> bool {
    &&& entries.len() == expected.len()
    &&& forall|i: int|
        0 <= i < entries.len() ==> {
            &&& (#[trigger] entries[i]).0.start == expected[i].0
            &&& entries[i].0.end == expected[i].1
            &&& entries[i].1 == expected[i].2
        }
}

/// Markdown colors of a theme.
#[derive(Clone, Copy, Debug, PartialEq, Eq)]
pub struct MarkdownTheme {
    pub code_bg: Color,
    pub link: Color,
}

/// Palette colors of a theme.
#[derive(Clone, Copy, Debug, PartialEq, Eq)]
pub struct Palette {
    pub accent: Color,
}

/// The theme colors the decoration providers read.
#[derive(Clone, Copy, Debug, PartialEq, Eq)]
pub struct Theme {
    pub markdown: MarkdownTheme,
    pub palette: Palette,
}

} // verus!
