//! Text for the terminal, in the order in which it is to be written.

use vstd::prelude::*;

verus! {

/// A piece of text for standard output or standard error.
#[derive(Debug, PartialEq, Eq)]
pub struct Line {
    /// Whether it goes to standard error.
    pub error: bool,
    /// The text, with its newline.
    pub text: String,
}

/// Model of a piece of text.
#[verifier::ext_equal]
pub struct LineModel {
    pub error: bool,
    pub text: Seq<char>,
}

impl Line {
    pub open spec fn model(self) -> LineModel {
        LineModel { error: self.error, text: self.text@ }
    }
}

/// The models of a sequence of lines.
pub open spec fn line_models(v: Seq<Line>) -> Seq<LineModel> {
    v.map_values(|l: Line| l.model())
}

/// A line for standard output.
pub open spec fn said(t: Seq<char>) -> LineModel {
    LineModel { error: false, text: t.push('\n') }
}

/// A line for standard error.
pub open spec fn complained(t: Seq<char>) -> LineModel {
    LineModel { error: true, text: t.push('\n') }
}

/// Adds a piece of text as it is.
pub fn write_text(lines: &mut Vec<Line>, error: bool, t: String)
    ensures
        line_models(final(lines)@) == line_models(old(lines)@).push(
            LineModel { error, text: t@ },
        ),
{
    let ghost before = line_models(lines@);
    let ghost added = LineModel { error, text: t@ };
    lines.push(Line { error, text: t });
    assert(line_models(lines@) =~= before.push(added));
}

/// Adds a line for standard output.
pub fn say(lines: &mut Vec<Line>, t: String)
    ensures
        line_models(final(lines)@) == line_models(old(lines)@).push(said(t@)),
{
    let mut s = t;
    s.push('\n');
    write_text(lines, false, s);
}

/// Adds a line for standard error.
pub fn complain(lines: &mut Vec<Line>, t: String)
    ensures
        line_models(final(lines)@) == line_models(old(lines)@).push(complained(t@)),
{
    let mut s = t;
    s.push('\n');
    write_text(lines, true, s);
}

/// Moves all lines of `more` behind those of `lines`.
pub fn add_lines(lines: &mut Vec<Line>, more: Vec<Line>)
    ensures
        line_models(final(lines)@) == line_models(old(lines)@) + line_models(more@),
{
    let ghost before = line_models(lines@);
    let ghost added = line_models(more@);
    let mut rest = more;
    lines.append(&mut rest);
    assert(line_models(lines@) =~= before + added);
}

/// No lines at all.
pub fn no_lines() -> (r: Vec<Line>)
    ensures
        line_models(r@) == Seq::<LineModel>::empty(),
{
    let r: Vec<Line> = Vec::new();
    assert(line_models(r@) =~= Seq::empty());
    r
}

/// The concatenation of two texts.
pub fn concat(a: &str, b: &str) -> (r: String)
    ensures
        r@ == a@ + b@,
{
    let mut out = a.to_owned();
    out.append(b);
    out
}

/// The concatenation of three texts.
pub fn concat3(a: &str, b: &str, c: &str) -> (r: String)
    ensures
        r@ == a@ + b@ + c@,
{
    let mut out = a.to_owned();
    out.append(b);
    out.append(c);
    out
}

} // verus!
