//! Presentation engine: composes a snippet and the externally supplied
//! highlighter output into an ordered list of styled text runs. A
//! separate terminal renderer turns runs into escape sequences; this
//! core never concatenates escape bytes itself. A missing highlighter
//! grammar never blocks presentation: the code falls back to one
//! unstyled run.

use vstd::prelude::*;
use crate::snippet::Snippet;
use crate::lang::Color;
use crate::text::{
    push_char, spec_fmt_u64, fmt_u64_into, spec_join, str_views, join_strings, string_from_chars,
};

verus! {

/// The display style of one run of text.
#[derive(Clone, Copy, Debug, PartialEq, Eq, Structural)]
pub enum Style {
    /// The language marker block, in the language's color.
    Marker(Color),
    /// The primary header style.
    Main,
    /// The accent style (language name, legacy footer).
    Accent,
    /// The dim style used for tags.
    Tag,
    /// Text colored by the highlighter's token style, named by an
    /// opaque theme index the highlighter chose.
    Token(u32),
    /// Unstyled text.
    Plain,
    /// The style reset that ends every render.
    Reset,
}

/// A contiguous span of text tagged with exactly one style.
#[derive(Debug)]
pub struct StyledRun {
    pub text: String,
    pub style: Style,
}

/// The model of a run: its characters and style.
pub struct RunModel {
    pub text: Seq<char>,
    pub style: Style,
}

impl View for StyledRun {
    type V = RunModel;

    open spec fn view(&self) -> RunModel {
        RunModel { text: self.text@, style: self.style }
    }
}

/// The views of a run list.
pub open spec fn run_views(rs: Seq<StyledRun>) -> Seq<RunModel> {
    rs.map_values(|r: StyledRun| r@)
}

/// The marker block that leads a header.
pub open spec fn spec_marker_text() -> Seq<char> {
    seq!['\u{25A0}', ' ']
}

/// The header's primary segment: `#<index>. <description> `.
pub open spec fn spec_head_main(index: int, description: Seq<char>) -> Seq<char> {
    seq!['#'] + spec_fmt_u64(index) + seq!['.', ' '] + description + seq![' ']
}

/// The header's accent segment: `| <language> `.
pub open spec fn spec_head_accent(language: Seq<char>) -> Seq<char> {
    seq!['|', ' '] + language + seq![' ']
}

/// The header's tag segment: `:<tag1>:<tag2>:` and a newline.
pub open spec fn spec_head_tags(tags: Seq<Seq<char>>) -> Seq<char> {
    seq![':'] + spec_join(tags, seq![':']) + seq![':', '\n']
}

/// The run list of a rendered header.
pub open spec fn spec_header_runs(m: crate::snippet::SnippetModel, c: Color) -> Seq<RunModel> {
    seq![
        RunModel { text: spec_marker_text(), style: Style::Marker(c) },
        RunModel { text: spec_head_main(m.index, m.description), style: Style::Main },
        RunModel { text: spec_head_accent(m.language), style: Style::Accent },
        RunModel { text: spec_head_tags(m.tags), style: Style::Tag },
        RunModel { text: Seq::<char>::empty(), style: Style::Reset },
    ]
}

/// The run list of a rendered code body, given what the highlighter
/// returned (`None`: no grammar for the extension).
pub open spec fn spec_code_runs(code: Seq<char>, highlighted: Option<Seq<RunModel>>) -> Seq<
    RunModel,
> {
    match highlighted {
        Some(runs) => runs.push(RunModel { text: Seq::<char>::empty(), style: Style::Reset }),
        None => seq![
            RunModel { text: code, style: Style::Plain },
            RunModel { text: Seq::<char>::empty(), style: Style::Reset },
        ],
    }
}

/// One blank-line run.
pub open spec fn spec_newline_run() -> RunModel {
    RunModel { text: seq!['\n'], style: Style::Plain }
}

fn head_main_string(s: &Snippet) -> (r: String)
    ensures
        r@ == spec_head_main(s@.index, s@.description),
{
    let mut out = String::new();
    push_char(&mut out, '#');
    fmt_u64_into(s.index as u64, &mut out);
    push_char(&mut out, '.');
    push_char(&mut out, ' ');
    out.append(s.description.as_str());
    push_char(&mut out, ' ');
    proof {
        assert(out@ =~= spec_head_main(s@.index, s@.description));
    }
    out
}

fn head_accent_string(s: &Snippet) -> (r: String)
    ensures
        r@ == spec_head_accent(s@.language),
{
    let mut out = String::new();
    push_char(&mut out, '|');
    push_char(&mut out, ' ');
    out.append(s.language.as_str());
    push_char(&mut out, ' ');
    proof {
        assert(out@ =~= spec_head_accent(s@.language));
    }
    out
}

fn head_tags_string(s: &Snippet) -> (r: String)
    ensures
        r@ == spec_head_tags(str_views(s.tags@)),
{
    let mut out = String::new();
    push_char(&mut out, ':');
    let joined = join_strings(&s.tags, ":");
    out.append(joined.as_str());
    push_char(&mut out, ':');
    push_char(&mut out, '\n');
    proof {
        reveal_strlit(":");
        assert(":"@ =~= seq![':']);
        assert(out@ =~= spec_head_tags(str_views(s.tags@)));
    }
    out
}

impl Snippet {
    /// The header as plain text, for searching:
    /// `<marker> #<index>. <description> | <language> :<tags>:` and a
    /// newline.
    pub fn get_header(&self) -> (r: String)
        ensures
            r@ == spec_marker_text() + spec_head_main(self@.index, self@.description)
                + spec_head_accent(self@.language) + spec_head_tags(self@.tags),
    {
        let mut out = String::new();
        push_char(&mut out, '\u{25A0}');
        push_char(&mut out, ' ');
        let main = head_main_string(self);
        out.append(main.as_str());
        let accent = head_accent_string(self);
        out.append(accent.as_str());
        let tags = head_tags_string(self);
        out.append(tags.as_str());
        proof {
            assert(out@ =~= spec_marker_text() + spec_head_main(self@.index, self@.description)
                + spec_head_accent(self@.language) + spec_head_tags(self@.tags));
        }
        out
    }

    /// Renders the header as styled runs: the language-colored marker
    /// block, the primary segment, the accent segment, the tag segment,
    /// and exactly one closing reset run.
    pub fn render_header(&self, language_color: Color) -> (r: Vec<StyledRun>)
        ensures
            run_views(r@) == spec_header_runs(self@, language_color),
    {
        let mut out: Vec<StyledRun> = Vec::new();
        let marker_chars: Vec<char> = vec!['\u{25A0}', ' '];
        let marker = string_from_chars(&marker_chars);
        proof {
            assert(marker_chars@ =~= spec_marker_text());
        }
        out.push(StyledRun { text: marker, style: Style::Marker(language_color) });
        out.push(StyledRun { text: head_main_string(self), style: Style::Main });
        out.push(StyledRun { text: head_accent_string(self), style: Style::Accent });
        out.push(StyledRun { text: head_tags_string(self), style: Style::Tag });
        out.push(StyledRun { text: String::new(), style: Style::Reset });
        proof {
            assert(run_views(out@) =~= spec_header_runs(self@, language_color));
        }
        out
    }

    /// Renders the code body from the highlighter's result for this
    /// snippet's derived extension. When the highlighter has no grammar
    /// registered (`None`), the raw code comes back complete as one
    /// unstyled run instead of aborting the render. Either way the body
    /// ends with exactly one reset run.
    pub fn render_code(&self, highlighted: Option<Vec<StyledRun>>) -> (r: Vec<StyledRun>)
        ensures
            run_views(r@) == spec_code_runs(
                self@.code,
                match highlighted {
                    Some(runs) => Some(run_views(runs@)),
                    None => None,
                },
            ),
            r@.len() > 0,
            r@[r@.len() - 1]@.style == Style::Reset,
    {
        let ghost hl_v: Option<Seq<RunModel>> = match &highlighted {
            Some(runs) => Some(run_views(runs@)),
            None => None,
        };
        let mut out: Vec<StyledRun> = match highlighted {
            Some(runs) => runs,
            None => {
                let mut v: Vec<StyledRun> = Vec::new();
                let code = self.copy_code();
                v.push(StyledRun { text: code, style: Style::Plain });
                v
            },
        };
        out.push(StyledRun { text: String::new(), style: Style::Reset });
        proof {
            match hl_v {
                Some(runs) => {
                    assert(run_views(out@) =~= runs.push(
                        RunModel { text: Seq::<char>::empty(), style: Style::Reset },
                    ));
                },
                None => {
                    assert(run_views(out@) =~= seq![
                        RunModel { text: self@.code, style: Style::Plain },
                        RunModel { text: Seq::<char>::empty(), style: Style::Reset },
                    ]);
                },
            }
        }
        out
    }

    /// A copy of the code text.
    pub fn copy_code(&self) -> (r: String)
        ensures
            r@ == self@.code,
    {
        self.code.clone()
    }

    /// The segmented render: a blank line, the header runs, a blank
    /// line, the code runs, and a trailing blank-line separator.
    pub fn render(&self, language_color: Color, highlighted: Option<Vec<StyledRun>>) -> (r: Vec<
        StyledRun,
    >)
        ensures
            run_views(r@) == seq![spec_newline_run()] + spec_header_runs(self@, language_color)
                + seq![spec_newline_run()] + spec_code_runs(
                self@.code,
                match highlighted {
                    Some(runs) => Some(run_views(runs@)),
                    None => None,
                },
            ) + seq![spec_newline_run(), spec_newline_run()],
    {
        let ghost hl_v: Option<Seq<RunModel>> = match &highlighted {
            Some(runs) => Some(run_views(runs@)),
            None => None,
        };
        let mut out: Vec<StyledRun> = Vec::new();
        out.push(newline_run());
        let mut header = self.render_header(language_color);
        out.append(&mut header);
        out.push(newline_run());
        let mut code = self.render_code(highlighted);
        out.append(&mut code);
        out.push(newline_run());
        out.push(newline_run());
        proof {
            assert(run_views(out@) =~= seq![spec_newline_run()] + spec_header_runs(
                self@,
                language_color,
            ) + seq![spec_newline_run()] + spec_code_runs(self@.code, hl_v) + seq![
                spec_newline_run(),
                spec_newline_run(),
            ]);
        }
        out
    }
}


/// The width of the separator rule when the terminal width is unknown.
pub const FALLBACK_RULE_WIDTH: usize = 40;

/// A run of `n` dashes.
pub open spec fn spec_dashes(n: int) -> Seq<char>
    decreases n,
{
    if n <= 0 {
        Seq::empty()
    } else {
        spec_dashes(n - 1).push('-')
    }
}

/// The legacy header line: `#<index>. <description>` and a newline.
pub open spec fn spec_legacy_head(index: int, description: Seq<char>) -> Seq<char> {
    seq!['#'] + spec_fmt_u64(index) + seq!['.', ' '] + description + seq!['\n']
}

/// The legacy footer line:
/// `<language> | <tag1>, <tag2> | <source>` and a newline.
pub open spec fn spec_legacy_footer(
    language: Seq<char>,
    tags: Seq<Seq<char>>,
    source: Seq<char>,
) -> Seq<char> {
    language + seq![' ', '|', ' '] + spec_join(tags, seq![',', ' ']) + seq![' ', '|', ' ']
        + source + seq!['\n']
}

/// The separator rule's length: half the detected terminal width, or
/// the fixed fallback when no width is known.
pub open spec fn spec_rule_len(width: Option<usize>) -> int {
    match width {
        Some(w) => w as int / 2,
        None => FALLBACK_RULE_WIDTH as int,
    }
}

fn dashes(n: usize) -> (r: String)
    ensures
        r@ == spec_dashes(n as int),
{
    let mut out = String::new();
    let mut i: usize = 0;
    while i < n
        invariant
            i <= n,
            out@ == spec_dashes(i as int),
        decreases n - i,
    {
        push_char(&mut out, '-');
        i = i + 1;
    }
    out
}

impl Snippet {
    /// The legacy single-line render: the header line in the primary
    /// style, the highlighted code (or the raw code, unstyled, when
    /// the highlighter has no grammar), the footer line in the accent
    /// style, then a separator rule of dashes scaled to half the
    /// terminal width (a fixed width when none was detected).
    pub fn render_legacy(
        &self,
        source: &str,
        highlighted: Option<Vec<StyledRun>>,
        terminal_width: Option<usize>,
    ) -> (r: Vec<StyledRun>)
        ensures
            run_views(r@) == seq![
                RunModel {
                    text: spec_legacy_head(self@.index, self@.description),
                    style: Style::Main,
                },
            ] + spec_code_runs(
                self@.code,
                match highlighted {
                    Some(runs) => Some(run_views(runs@)),
                    None => None,
                },
            ) + seq![
                RunModel {
                    text: spec_legacy_footer(self@.language, self@.tags, source@),
                    style: Style::Accent,
                },
                RunModel {
                    text: spec_dashes(spec_rule_len(terminal_width)).push('\n'),
                    style: Style::Plain,
                },
            ],
    {
        let ghost hl_v: Option<Seq<RunModel>> = match &highlighted {
            Some(runs) => Some(run_views(runs@)),
            None => None,
        };
        let mut out: Vec<StyledRun> = Vec::new();
        let mut head = String::new();
        push_char(&mut head, '#');
        fmt_u64_into(self.index as u64, &mut head);
        push_char(&mut head, '.');
        push_char(&mut head, ' ');
        head.append(self.description.as_str());
        push_char(&mut head, '\n');
        proof {
            assert(head@ =~= spec_legacy_head(self@.index, self@.description));
        }
        out.push(StyledRun { text: head, style: Style::Main });
        let mut code = self.render_code(highlighted);
        out.append(&mut code);
        let mut footer = String::new();
        footer.append(self.language.as_str());
        push_char(&mut footer, ' ');
        push_char(&mut footer, '|');
        push_char(&mut footer, ' ');
        let joined = join_strings(&self.tags, ", ");
        footer.append(joined.as_str());
        push_char(&mut footer, ' ');
        push_char(&mut footer, '|');
        push_char(&mut footer, ' ');
        footer.append(source);
        push_char(&mut footer, '\n');
        proof {
            reveal_strlit(", ");
            assert(", "@ =~= seq![',', ' ']);
            assert(footer@ =~= spec_legacy_footer(self@.language, self@.tags, source@));
        }
        out.push(StyledRun { text: footer, style: Style::Accent });
        let width: usize = match terminal_width {
            Some(w) => w / 2,
            None => FALLBACK_RULE_WIDTH,
        };
        let mut rule = dashes(width);
        push_char(&mut rule, '\n');
        proof {
            assert(rule@ == spec_dashes(spec_rule_len(terminal_width)).push('\n'));
        }
        out.push(StyledRun { text: rule, style: Style::Plain });
        proof {
            assert(run_views(out@) =~= seq![
                RunModel {
                    text: spec_legacy_head(self@.index, self@.description),
                    style: Style::Main,
                },
            ] + spec_code_runs(self@.code, hl_v) + seq![
                RunModel {
                    text: spec_legacy_footer(self@.language, self@.tags, source@),
                    style: Style::Accent,
                },
                RunModel {
                    text: spec_dashes(spec_rule_len(terminal_width)).push('\n'),
                    style: Style::Plain,
                },
            ]);
        }
        out
    }
}

fn newline_run() -> (r: StyledRun)
    ensures
        r@.text == seq!['\n'],
        r@.style == Style::Plain,
{
    let mut s = String::new();
    push_char(&mut s, '\n');
    proof {
        assert(s@ =~= seq!['\n']);
    }
    StyledRun { text: s, style: Style::Plain }
}

} // verus!
