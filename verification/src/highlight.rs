//! Text in the colours of its syntax.
use syntect::easy::HighlightLines;
use syntect::highlighting::Theme;
use syntect::highlighting::ThemeSet;
use syntect::parsing::SyntaxReference;
use syntect::parsing::SyntaxSet;
use vstd::prelude::*;
use vstd::string::*;

use crate::files::is_image_file;
use crate::kitty::CachedImage;
use crate::paths;
use crate::paths::extension_of;
use crate::preview;
use crate::preview::plain_preview;
use crate::preview::preview_of;
use crate::preview::PreviewSource;
use crate::style;
use crate::style::Color;
use crate::style::StyledLine;
use crate::style::StyledSpan;
use crate::text;
use crate::text::chars_of;
use crate::viewer;
use crate::viewer::PreviewResultContent;

verus! {

/// A set of syntaxes of the `syntect` crate.
#[verifier::external_type_specification]
#[verifier::external_body]
pub struct ExSyntaxSet(SyntaxSet);

/// A syntax of the `syntect` crate.
#[verifier::external_type_specification]
#[verifier::external_body]
pub struct ExSyntaxReference(SyntaxReference);

/// A theme of the `syntect` crate.
#[verifier::external_type_specification]
#[verifier::external_body]
pub struct ExTheme(Theme);

/// The state of highlighting of the `syntect` crate.
#[verifier::external_type_specification]
#[verifier::external_body]
pub struct ExHighlightLines<'a>(HighlightLines<'a>);

/// Whether a set of syntaxes is the one that `SyntaxSet::load_defaults_newlines` gives.
pub uninterp spec fn is_default_set(set: SyntaxSet) -> bool;

/// `SyntaxSet::load_defaults_newlines`: the set of syntaxes that comes with the crate.
pub assume_specification[ SyntaxSet::load_defaults_newlines ]() -> (r: SyntaxSet)
    ensures
        is_default_set(r),
;

/// The syntax that `SyntaxSet::find_syntax_by_extension` finds for an extension.
pub uninterp spec fn syntax_by_extension(set: SyntaxSet, extension: Seq<char>) -> Option<
    SyntaxReference,
>;

/// The syntax that `SyntaxSet::find_syntax_by_name` finds for a name.
pub uninterp spec fn syntax_by_name(set: SyntaxSet, name: Seq<char>) -> Option<SyntaxReference>;

/// `SyntaxSet::find_syntax_by_extension`: the syntax for an extension, if the set
/// has one. It goes by the set and the extension alone.
pub assume_specification<'a>[ SyntaxSet::find_syntax_by_extension ](
    set: &'a SyntaxSet,
    extension: &str,
) -> (r: Option<&'a SyntaxReference>)
    ensures
        match r {
            Some(syntax) => syntax_by_extension(*set, extension@) == Some(*syntax),
            None => syntax_by_extension(*set, extension@) is None,
        },
;

/// `SyntaxSet::find_syntax_by_name`: the syntax of a name, if the set has one. It goes
/// by the set and the name alone.
pub assume_specification<'a>[ SyntaxSet::find_syntax_by_name ](
    set: &'a SyntaxSet,
    name: &str,
) -> (r: Option<&'a SyntaxReference>)
    ensures
        match r {
            Some(syntax) => syntax_by_name(*set, name@) == Some(*syntax),
            None => syntax_by_name(*set, name@) is None,
        },
;

/// Whether a syntax is one that a set gives out.
pub open spec fn is_of(set: SyntaxSet, syntax: SyntaxReference) -> bool {
    ||| exists|extension: Seq<char>| #[trigger]
        syntax_by_extension(set, extension) == Some(syntax)
    ||| exists|name: Seq<char>| #[trigger] syntax_by_name(set, name) == Some(syntax)
}

/// Whether a syntax is one that the set gives out that comes with the crate.
pub open spec fn is_default_syntax(syntax: SyntaxReference) -> bool {
    exists|set: SyntaxSet| is_default_set(set) && #[trigger] is_of(set, syntax)
}

/// How far the highlighting of a text has come: its syntax and theme, and the lines that
/// have been read, each with the set it was read with.
pub ghost struct Progress {
    pub syntax: SyntaxReference,
    pub theme: Theme,
    pub read: Seq<(SyntaxSet, Seq<char>)>,
}

/// How far a `HighlightLines` has come.
pub uninterp spec fn progress_of(h: HighlightLines<'_>) -> Progress;

/// `HighlightLines::new`: highlighting from the start of a text. A syntax that no set was
/// built with may lack what it starts from, so only those are admitted that come with the
/// crate.
pub assume_specification<'a>[ HighlightLines::<'a>::new ](
    syntax: &SyntaxReference,
    theme: &'a Theme,
) -> (r: HighlightLines<'a>)
    requires
        is_default_syntax(*syntax),
    ensures
        progress_of(r) == (Progress { syntax: *syntax, theme: *theme, read: Seq::empty() }),
;

/// A stretch of a line and its colour.
pub struct Piece {
    pub text: String,
    pub red: u8,
    pub green: u8,
    pub blue: u8,
}

/// The text of a stretch and the parts of its colour.
pub type PieceView = (Seq<char>, u8, u8, u8);

/// The views of some stretches.
pub open spec fn piece_views(pieces: Seq<Piece>) -> Seq<PieceView> {
    pieces.map_values(|p: Piece| (p.text@, p.red, p.green, p.blue))
}

/// The text of some stretches.
pub open spec fn pieces_text(pieces: Seq<PieceView>) -> Seq<char>
    decreases pieces.len(),
{
    if pieces.len() == 0 {
        Seq::empty()
    } else {
        pieces_text(pieces.drop_last()) + pieces.last().0
    }
}

/// The stretches that `HighlightLines::highlight_line` parts the next line into, or
/// nothing where it fails.
pub uninterp spec fn parted_line(progress: Progress, set: SyntaxSet, line: Seq<char>) -> Option<
    Seq<PieceView>,
>;

/// How many characters a line has at most that is coloured.
pub const MAX_COLORED: usize = 8192;

/// Whether a line may be read with a set: with the one that comes with the crate, and a line
/// that is not too long.
pub open spec fn is_admitted(set: SyntaxSet, line: Seq<char>) -> bool {
    is_default_set(set) && line.len() <= MAX_COLORED
}

/// Whether all lines that have been read were such as may be.
pub open spec fn were_admitted(read: Seq<(SyntaxSet, Seq<char>)>) -> bool {
    forall|i: int| 0 <= i < read.len() ==> is_admitted((#[trigger] read[i]).0, read[i].1)
}

/// `HighlightLines::highlight_line`: the next line in stretches, each with a colour. They
/// are named: they go by what was read before, the set and the line. The call can panic for
/// a set that was made by hand, or that is not the one the syntax is of, so only the set is
/// admitted that comes with the crate. It also panics where a pattern grows beyond what may
/// be compiled by the text of a line that is put into it, this one or one before, so long
/// lines are left out. That the stretches make up the line is not claimed: they end early
/// where the scopes of a line do not fit those of the lines before.
#[verifier::external_body]
fn highlighted_line(h: &mut HighlightLines, line: &str, set: &SyntaxSet) -> (r: Option<Vec<Piece>>)
    requires
        is_admitted(*set, line@),
        is_of(*set, progress_of(*old(h)).syntax),
        were_admitted(progress_of(*old(h)).read),
    ensures
        stretches(r) == parted_line(progress_of(*old(h)), *set, line@),
        progress_of(*final(h)) == (Progress {
            read: progress_of(*old(h)).read.push((*set, line@)),
            ..progress_of(*old(h))
        }),
{
    let ranges = h.highlight_line(line, set).ok()?;
    let piece = |(style, text): (syntect::highlighting::Style, &str)| Piece {
        text: text.to_string(),
        red: style.foreground.r,
        green: style.foreground.g,
        blue: style.foreground.b,
    };
    Some(ranges.into_iter().map(piece).collect())
}

/// A stretch of a line in its colour.
pub open spec fn piece_span(p: PieceView) -> style::SpanView {
    (p.0, Color::Rgb(p.1, p.2, p.3), false)
}

/// A line in the colours of its stretches, or in gray if it has none.
pub open spec fn colored(line: Seq<char>, pieces: Option<Seq<PieceView>>) -> Seq<style::SpanView> {
    match pieces {
        Some(list) => list.map_values(|p: PieceView| piece_span(p)),
        None => style::one_span(line, Color::Gray),
    }
}

/// The stretches that a line was parted into, if it was.
pub open spec fn stretches(pieces: Option<Vec<Piece>>) -> Option<Seq<PieceView>> {
    match pieces {
        Some(list) => Some(piece_views(list@)),
        None => None,
    }
}

/// Puts a line into the colours of its stretches, or into gray if it has none.
pub fn color_line(line: &str, pieces: Option<Vec<Piece>>) -> (r: StyledLine)
    ensures
        r@ == colored(line@, stretches(pieces)),
{
    match pieces {
        Some(list) => {
            let ghost all = piece_views(list@).map_values(|p: PieceView| piece_span(p));
            let mut r = StyledLine::new();
            let mut i: usize = 0;
            proof {
                assert(r@ =~= all.take(0));
            }
            while i < list.len()
                invariant
                    i <= list@.len(),
                    all == piece_views(list@).map_values(|p: PieceView| piece_span(p)),
                    r@ == all.take(i as int),
                decreases list.len() - i,
            {
                let p = &list[i];
                r.push(StyledSpan::new(p.text.clone(), Color::Rgb(p.red, p.green, p.blue)));
                i += 1;
                proof {
                    assert(all.take(i as int) =~= all.take(i - 1).push(all[i - 1]));
                }
            }
            proof {
                assert(all.take(all.len() as int) =~= all);
            }
            r
        },
        None => StyledLine::one(line.to_owned(), Color::Gray),
    }
}

/// Colours leave the text as the stretches give it, and a line without stretches as it is.
pub proof fn lemma_colored_text(line: Seq<char>, pieces: Option<Seq<PieceView>>)
    ensures
        style::line_text(colored(line, pieces)) == match pieces {
            Some(list) => pieces_text(list),
            None => line,
        },
{
    match pieces {
        Some(list) => {
            lemma_spans_text(list);
        },
        None => {
            let one = style::one_span(line, Color::Gray);
            reveal_with_fuel(style::line_text, 2);
            assert(one.drop_last() =~= Seq::<style::SpanView>::empty());
            assert(style::line_text(one) =~= line);
        },
    }
}

proof fn lemma_spans_text(list: Seq<PieceView>)
    ensures
        style::line_text(list.map_values(|p: PieceView| piece_span(p))) == pieces_text(list),
    decreases list.len(),
{
    let f = |p: PieceView| piece_span(p);
    if list.len() > 0 {
        lemma_spans_text(list.drop_last());
        assert(list.map_values(f).drop_last() =~= list.drop_last().map_values(f));
    }
}

/// The syntax for a file: by its extension, or else the one of plain text.
pub open spec fn syntax_for(set: SyntaxSet, path: Seq<char>) -> Option<SyntaxReference> {
    let extension = match paths::extension(path) {
        Some(ext) => ext,
        None => Seq::empty(),
    };
    match syntax_by_extension(set, extension) {
        Some(syntax) => Some(syntax),
        None => syntax_by_name(set, "Plain Text"@),
    }
}

/// The stretches of a line of a file, after those that stand in front of it.
pub open spec fn line_stretches(
    lines: Seq<Seq<char>>,
    i: int,
    syntax: Option<SyntaxReference>,
    theme: Theme,
    set: SyntaxSet,
) -> Option<Seq<PieceView>> {
    match syntax {
        Some(syntax) => {
            let read = lines.take(i).map_values(|line: Seq<char>| (set, line));
            parted_line(Progress { syntax, theme, read }, set, lines[i])
        },
        None => None,
    }
}

/// The lines of a file in the colours of their stretches.
pub open spec fn highlighted(
    lines: Seq<Seq<char>>,
    path: Seq<char>,
    theme: Theme,
    set: SyntaxSet,
) -> Seq<Seq<style::SpanView>> {
    Seq::new(
        lines.len(),
        |i: int| colored(
            lines[i],
            line_stretches(lines, i, syntax_for(set, path), theme, set),
        ),
    )
}

/// The syntaxes that come with the `syntect` crate.
pub struct Syntaxes {
    set: SyntaxSet,
}

impl View for Syntaxes {
    type V = SyntaxSet;

    closed spec fn view(&self) -> SyntaxSet {
        self.set
    }
}

impl Syntaxes {
    /// Whether they are those that come with the crate.
    #[verifier::type_invariant]
    spec fn wf(self) -> bool {
        is_default_set(self.set)
    }

    /// Loads the syntaxes.
    pub fn load() -> (r: Self)
        ensures
            is_default_set(r@),
    {
        Syntaxes { set: SyntaxSet::load_defaults_newlines() }
    }
}

/// The theme of a name among those that `ThemeSet::load_defaults` gives.
pub uninterp spec fn theme_named(name: Seq<char>) -> Option<Theme>;

/// `ThemeSet::load_defaults`: the theme of a name among those that come with the crate, a
/// function of the name. `base16-ocean.dark` is documented to be one of them.
#[verifier::external_body]
fn default_theme(name: &str) -> (r: Option<Theme>)
    ensures
        r == theme_named(name@),
        name@ == "base16-ocean.dark"@ ==> r is Some,
{
    ThemeSet::load_defaults().themes.remove(name)
}

/// Loads the theme that previews are coloured with.
pub fn load_theme() -> (r: Theme)
    ensures
        theme_named("base16-ocean.dark"@) == Some(r),
{
    default_theme("base16-ocean.dark").unwrap()
}

/// Whether no line is too long to be coloured.
pub open spec fn are_colorable(lines: Seq<Seq<char>>) -> bool {
    forall|i: int| 0 <= i < lines.len() ==> (#[trigger] lines[i]).len() <= MAX_COLORED
}

/// Shows the lines of a file in the colours of its syntax, which goes by the
/// extension.
pub fn highlight_preview(
    lines: &Vec<String>,
    path: &str,
    syntaxes: &Syntaxes,
    theme: &Theme,
) -> (r: Vec<StyledLine>)
    requires
        are_colorable(text::text_views(lines@)),
    ensures
        style::line_views(r@) == highlighted(text::text_views(lines@), path@, *theme, syntaxes@),
{
    proof {
        use_type_invariant(syntaxes);
    }
    let ss = &syntaxes.set;
    let extension = match extension_of(path) {
        Some(ext) => ext,
        None => String::new(),
    };
    proof {
        assert(extension@ =~= match paths::extension(path@) {
            Some(ext) => ext,
            None => Seq::empty(),
        });
    }
    let found = match ss.find_syntax_by_extension(extension.as_str()) {
        Some(syntax) => Some(syntax),
        None => ss.find_syntax_by_name("Plain Text"),
    };
    let ghost all = text::text_views(lines@);
    let ghost want = highlighted(all, path@, *theme, *ss);
    let mut r: Vec<StyledLine> = Vec::new();
    let mut i: usize = 0;
    proof {
        assert(style::line_views(r@) =~= want.take(0));
    }
    match found {
        Some(syntax) => {
            proof {
                assert(is_of(*ss, *syntax));
            }
            let mut h = HighlightLines::new(syntax, theme);
            proof {
                assert(progress_of(h).read =~= all.take(0).map_values(
                    |line: Seq<char>| (*ss, line),
                ));
            }
            while i < lines.len()
                invariant
                    i <= lines@.len(),
                    all == text::text_views(lines@),
                    want == highlighted(all, path@, *theme, *ss),
                    syntax_for(*ss, path@) == Some(*syntax),
                    is_of(*ss, *syntax),
                    is_default_set(*ss),
                    are_colorable(all),
                    progress_of(h) == (Progress {
                        syntax: *syntax,
                        theme: *theme,
                        read: all.take(i as int).map_values(|line: Seq<char>| (*ss, line)),
                    }),
                    style::line_views(r@) == want.take(i as int),
                decreases lines.len() - i,
            {
                let line = lines[i].as_str();
                proof {
                    assert(all[i as int] == line@);
                }
                let pieces = highlighted_line(&mut h, line, ss);
                let ghost before = r@;
                proof {
                    assert(progress_of(h).read =~= all.take(i + 1).map_values(
                        |line: Seq<char>| (*ss, line),
                    ));
                }
                r.push(color_line(line, pieces));
                i += 1;
                proof {
                    assert(style::line_views(r@) =~= style::line_views(before).push(r@[i - 1]@));
                    assert(want.take(i as int) =~= want.take(i - 1).push(want[i - 1]));
                }
            }
        },
        None => {
            while i < lines.len()
                invariant
                    i <= lines@.len(),
                    all == text::text_views(lines@),
                    want == highlighted(all, path@, *theme, *ss),
                    syntax_for(*ss, path@) is None,
                    style::line_views(r@) == want.take(i as int),
                decreases lines.len() - i,
            {
                let line = lines[i].as_str();
                let ghost before = r@;
                proof {
                    assert(all[i as int] == line@);
                }
                r.push(color_line(line, None));
                i += 1;
                proof {
                    assert(style::line_views(r@) =~= style::line_views(before).push(r@[i - 1]@));
                    assert(want.take(i as int) =~= want.take(i - 1).push(want[i - 1]));
                }
            }
        },
    }
    proof {
        assert(want.take(i as int) =~= want);
    }
    r
}

/// Whether what is shown is a note, which stands in square brackets.
pub open spec fn is_note(lines: Seq<Seq<char>>) -> bool {
    lines.len() == 1 && lines[0].len() > 0 && lines[0][0] == '['
}

/// The lines of a file or directory as they are shown: a note in dark gray, a directory
/// without a style, and a file in the colours of its syntax. Where a line is too long to be
/// coloured, which no line of a file is, none is.
pub open spec fn shown_text(
    lines: Seq<Seq<char>>,
    path: Seq<char>,
    is_dir: bool,
    theme: Theme,
    set: SyntaxSet,
) -> Seq<Seq<style::SpanView>> {
    if is_note(lines) {
        seq![style::one_span(lines[0], Color::DarkGray)]
    } else if is_dir || !are_colorable(lines) {
        preview::plain_lines(lines)
    } else {
        highlighted(lines, path, theme, set)
    }
}

/// Tells whether no line is too long to be coloured.
fn check_colorable(lines: &Vec<String>) -> (r: bool)
    ensures
        r == are_colorable(text::text_views(lines@)),
{
    let ghost all = text::text_views(lines@);
    let mut i: usize = 0;
    while i < lines.len()
        invariant
            i <= lines@.len(),
            all == text::text_views(lines@),
            forall|k: int| 0 <= k < i ==> (#[trigger] all[k]).len() <= MAX_COLORED,
        decreases lines.len() - i,
    {
        proof {
            assert(all[i as int] == lines@[i as int]@);
        }
        if chars_of(lines[i].as_str()).len() > MAX_COLORED {
            return false;
        }
        i += 1;
    }
    true
}

fn show_text(
    lines: &Vec<String>,
    path: &str,
    is_dir: bool,
    syntaxes: &Syntaxes,
    theme: &Theme,
) -> (r: Vec<StyledLine>)
    ensures
        style::line_views(r@) == shown_text(
            text::text_views(lines@),
            path@,
            is_dir,
            *theme,
            syntaxes@,
        ),
{
    proof {
        if lines@.len() == 1 {
            assert(text::text_views(lines@)[0] == lines@[0]@);
        }
    }
    let note = lines.len() == 1 && {
        let first = chars_of(lines[0].as_str());
        first.len() > 0 && first[0] == '['
    };
    if note {
        let mut r: Vec<StyledLine> = Vec::new();
        r.push(StyledLine::one(lines[0].clone(), Color::DarkGray));
        proof {
            assert(style::line_views(r@) =~= seq![
                style::one_span(lines@[0]@, Color::DarkGray),
            ]);
        }
        r
    } else if is_dir || !check_colorable(lines) {
        plain_preview(lines)
    } else {
        highlight_preview(lines, path, syntaxes, theme)
    }
}

/// What is read of a file is never too long: unless it is a note, it is shown in the colours
/// of its syntax.
pub proof fn lemma_files_are_colored(
    path: Seq<char>,
    source: PreviewSource,
    theme: Theme,
    set: SyntaxSet,
)
    requires
        !(source is Directory),
    ensures
        ({
            let lines = preview::path_preview(path, source);
            !is_note(lines) ==> shown_text(lines, path, false, theme, set) == highlighted(
                lines,
                path,
                theme,
                set,
            )
        }),
{
    preview::lemma_file_lines_are_short(path, source);
}

/// What has to be read for the preview of a path.
#[derive(Clone, Copy, Debug, PartialEq, Eq, Structural)]
pub enum SourceKind {
    Image,
    Lines,
}

/// What has to be read for the preview of a path: an image, if its extension says so, or
/// else the lines of a file or the items of a directory.
pub fn source_kind(path: &str) -> (r: SourceKind)
    ensures
        r == if viewer::names_image(path@) {
            SourceKind::Image
        } else {
            SourceKind::Lines
        },
{
    if is_image_file(path) {
        SourceKind::Image
    } else {
        SourceKind::Lines
    }
}

/// What has been read for the preview of a path.
pub enum PreviewRead {
    /// A small version of the image, if there is one.
    Image(Option<CachedImage>),
    /// What stands in the file or directory, and whether it is a directory.
    Lines { source: PreviewSource, is_dir: bool },
}

/// Makes the preview of a path from what has been read for it.
pub fn load_preview_result_content(
    path: &str,
    read: PreviewRead,
    syntaxes: &Syntaxes,
    theme: &Theme,
) -> (r: PreviewResultContent)
    ensures
        match read {
            PreviewRead::Image(img) => r == PreviewResultContent::Image(img),
            PreviewRead::Lines { source, is_dir } => r matches PreviewResultContent::Text(lines)
                && style::line_views(lines@) == shown_text(
                preview::path_preview(path@, source),
                path@,
                is_dir,
                *theme,
                syntaxes@,
            ),
        },
{
    match read {
        PreviewRead::Image(img) => PreviewResultContent::Image(img),
        PreviewRead::Lines { source, is_dir } => {
            let lines = preview_of(path, source);
            PreviewResultContent::Text(show_text(&lines, path, is_dir, syntaxes, theme))
        },
    }
}

/// Each stretch of a line is shown in its own colour, in its place. A line that was not
/// parted is shown whole.
pub proof fn lemma_stretches_keep_colors(line: Seq<char>, list: Seq<PieceView>)
    ensures
        colored(line, Some(list)).len() == list.len(),
        forall|i: int|
            0 <= i < list.len() ==> {
                let span = #[trigger] colored(line, Some(list))[i];
                &&& span.0 == list[i].0
                &&& span.1 == Color::Rgb(list[i].1, list[i].2, list[i].3)
            },
        colored(line, None).len() == 1,
        colored(line, None)[0].0 == line,
{
}

/// A line is coloured by what stands in front of it, never by what follows: the first
/// lines of a file look the same whatever comes after them.
pub proof fn lemma_first_lines_look_the_same(
    lines: Seq<Seq<char>>,
    more: Seq<Seq<char>>,
    path: Seq<char>,
    theme: Theme,
    set: SyntaxSet,
)
    ensures
        highlighted(lines + more, path, theme, set).take(lines.len() as int) == highlighted(
            lines,
            path,
            theme,
            set,
        ),
        highlighted(lines + more, path, theme, set).len() == lines.len() + more.len(),
{
    let (all, first) = (
        highlighted(lines + more, path, theme, set),
        highlighted(lines, path, theme, set),
    );
    assert forall|i: int| 0 <= i < lines.len() implies all[i] == first[i] by {
        assert((lines + more).take(i) =~= lines.take(i));
        assert((lines + more)[i] == lines[i]);
    }
    assert(all.take(lines.len() as int) =~= first);
}

/// Files with the same extension have the same syntax, wherever they are.
pub proof fn lemma_syntax_by_extension(set: SyntaxSet, path: Seq<char>, other: Seq<char>)
    requires
        paths::extension(path) == paths::extension(other),
    ensures
        syntax_for(set, path) == syntax_for(set, other),
        paths::extension(path) matches Some(ext) ==> (syntax_by_extension(set, ext) matches Some(
            syntax,
        ) ==> syntax_for(set, path) == Some(syntax)),
{
}

} // verus!
