//! Text with colours.
use vstd::prelude::*;
use vstd::string::*;

use crate::order::Duplicate;

verus! {

/// A colour of the terminal, or one given by its parts.
#[derive(Clone, Copy, Debug, PartialEq, Eq, Structural)]
pub enum Color {
    Plain,
    Red,
    Green,
    Yellow,
    Blue,
    Cyan,
    White,
    Gray,
    DarkGray,
    Rgb(u8, u8, u8),
}

/// A stretch of text in one style.
pub struct StyledSpan {
    pub text: String,
    pub color: Color,
    pub bold: bool,
}

/// A line of text in some styles.
pub struct StyledLine {
    pub spans: Vec<StyledSpan>,
}

/// A stretch of text and its style.
pub type SpanView = (Seq<char>, Color, bool);

impl View for StyledSpan {
    type V = SpanView;

    open spec fn view(&self) -> SpanView {
        (self.text@, self.color, self.bold)
    }
}

impl View for StyledLine {
    type V = Seq<SpanView>;

    open spec fn view(&self) -> Seq<SpanView> {
        self.spans@.map_values(|s: StyledSpan| s@)
    }
}

/// The views of some lines.
pub open spec fn line_views(lines: Seq<StyledLine>) -> Seq<Seq<SpanView>> {
    lines.map_values(|l: StyledLine| l@)
}

/// A line of one stretch.
pub open spec fn one_span(text: Seq<char>, color: Color) -> Seq<SpanView> {
    seq![(text, color, false)]
}

/// The text of a line.
pub open spec fn line_text(line: Seq<SpanView>) -> Seq<char>
    decreases line.len(),
{
    if line.len() == 0 {
        Seq::empty()
    } else {
        line_text(line.drop_last()) + line.last().0
    }
}

impl StyledSpan {
    /// A stretch of text in a colour.
    pub fn new(text: String, color: Color) -> (r: Self)
        ensures
            r@ == (text@, color, false),
    {
        StyledSpan { text, color, bold: false }
    }

    /// A stretch of literal text in a colour.
    pub fn literal(text: &str, color: Color) -> (r: Self)
        ensures
            r@ == (text@, color, false),
    {
        StyledSpan { text: text.to_owned(), color, bold: false }
    }
}

impl StyledLine {
    /// A line of one stretch.
    pub fn one(text: String, color: Color) -> (r: Self)
        ensures
            r@ == one_span(text@, color),
    {
        let mut spans: Vec<StyledSpan> = Vec::new();
        spans.push(StyledSpan::new(text, color));
        let r = StyledLine { spans };
        proof {
            assert(r@ =~= one_span(text@, color));
        }
        r
    }

    /// An empty line.
    pub fn new() -> (r: Self)
        ensures
            r@ == Seq::<SpanView>::empty(),
    {
        let r = StyledLine { spans: Vec::new() };
        proof {
            assert(r@ =~= Seq::<SpanView>::empty());
        }
        r
    }

    /// Appends a stretch.
    pub fn push(&mut self, span: StyledSpan)
        ensures
            final(self)@ == old(self)@.push(span@),
    {
        let ghost before = self@;
        self.spans.push(span);
        proof {
            assert(self@ =~= before.push(span@));
        }
    }
}

impl Duplicate for StyledSpan {
    fn duplicate(&self) -> (r: Self) {
        StyledSpan { text: self.text.clone(), color: self.color, bold: self.bold }
    }
}

/// A copy of a line.
pub fn copy_line(line: &StyledLine) -> (r: StyledLine)
    ensures
        r@ == line@,
{
    let mut spans: Vec<StyledSpan> = Vec::new();
    let mut i: usize = 0;
    while i < line.spans.len()
        invariant
            i <= line.spans@.len(),
            spans@ == line.spans@.take(i as int),
        decreases line.spans.len() - i,
    {
        spans.push(line.spans[i].duplicate());
        i += 1;
        proof {
            assert(line.spans@.take(i as int) =~= line.spans@.take(i - 1).push(line.spans@[i - 1]));
        }
    }
    proof {
        assert(line.spans@.take(line.spans@.len() as int) =~= line.spans@);
    }
    StyledLine { spans }
}

/// A copy of some lines.
pub fn copy_lines(lines: &Vec<StyledLine>) -> (r: Vec<StyledLine>)
    ensures
        line_views(r@) == line_views(lines@),
{
    let ghost all = line_views(lines@);
    let mut r: Vec<StyledLine> = Vec::new();
    let mut i: usize = 0;
    proof {
        assert(line_views(r@) =~= all.take(0));
    }
    while i < lines.len()
        invariant
            i <= lines@.len(),
            all == line_views(lines@),
            line_views(r@) == all.take(i as int),
        decreases lines.len() - i,
    {
        let ghost before = r@;
        let line = copy_line(&lines[i]);
        r.push(line);
        proof {
            assert(line_views(r@) =~= line_views(before).push(line@));
            assert(all.take(i + 1) =~= all.take(i as int).push(all[i as int]));
        }
        i += 1;
    }
    proof {
        assert(all.take(all.len() as int) =~= all);
    }
    r
}

} // verus!
