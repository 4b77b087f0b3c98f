//! Plain-data model of terminal text styling, and a coalescing sink of
//! styled text runs.
//!
//! A [`StyledOut`] collects the rendered output as a sequence of runs, each a
//! piece of text under one style.  Consecutive prints under the same style
//! are merged into a single run, so a consumer that walks the runs emits one
//! style transition exactly where the style actually changes.

use vstd::prelude::*;
use vstd::string::StringExecFns;

verus! {

/// One of the 256 fixed terminal palette colors, or the terminal's default.
#[derive(PartialEq, Eq, Structural, Clone, Copy, Debug)]
pub enum Paint {
    Plain,
    Fixed(u8),
}

/// The visual attributes of a piece of rendered text.
#[derive(PartialEq, Eq, Structural, Clone, Copy, Debug)]
pub struct TextStyle {
    pub fg: Paint,
    pub bg: Paint,
    pub bold: bool,
}

impl TextStyle {
    /// The default style: no colors, no emphasis.
    pub open spec fn spec_plain() -> TextStyle {
        TextStyle { fg: Paint::Plain, bg: Paint::Plain, bold: false }
    }

    pub fn plain() -> (r: TextStyle)
        ensures
            r == TextStyle::spec_plain(),
    {
        TextStyle { fg: Paint::Plain, bg: Paint::Plain, bold: false }
    }

    /// A style with only a foreground color set.
    pub open spec fn spec_fg(c: u8) -> TextStyle {
        TextStyle { fg: Paint::Fixed(c), bg: Paint::Plain, bold: false }
    }

    pub fn with_fg(c: u8) -> (r: TextStyle)
        ensures
            r == TextStyle::spec_fg(c),
    {
        TextStyle { fg: Paint::Fixed(c), bg: Paint::Plain, bold: false }
    }

    /// A style with foreground and background colors set.
    pub open spec fn spec_colored(fg: u8, bg: u8, bold: bool) -> TextStyle {
        TextStyle { fg: Paint::Fixed(fg), bg: Paint::Fixed(bg), bold }
    }

    pub fn colored(fg: u8, bg: u8, bold: bool) -> (r: TextStyle)
        ensures
            r == TextStyle::spec_colored(fg, bg, bold),
    {
        TextStyle { fg: Paint::Fixed(fg), bg: Paint::Fixed(bg), bold }
    }
}

/// A maximal run of output text rendered under a single style.
pub struct StyledRun {
    pub style: TextStyle,
    pub text: String,
}

impl View for StyledRun {
    type V = (TextStyle, Seq<char>);

    open spec fn view(&self) -> (TextStyle, Seq<char>) {
        (self.style, self.text@)
    }
}

/// Appending `text` under `style` to a run sequence: merged into the final
/// run when the style matches, opening a fresh run otherwise.
pub open spec fn print_spec(
    out: Seq<(TextStyle, Seq<char>)>,
    style: TextStyle,
    text: Seq<char>,
) -> Seq<(TextStyle, Seq<char>)> {
    if out.len() > 0 && out.last().0 == style {
        out.update(out.len() - 1, (style, out.last().1 + text))
    } else {
        out.push((style, text))
    }
}

/// Appending `text` with no style transition at all: it joins whatever run
/// is current, under that run's style.
pub open spec fn raw_spec(
    out: Seq<(TextStyle, Seq<char>)>,
    text: Seq<char>,
) -> Seq<(TextStyle, Seq<char>)> {
    if out.len() > 0 {
        out.update(out.len() - 1, (out.last().0, out.last().1 + text))
    } else {
        out.push((TextStyle::spec_plain(), text))
    }
}

/// The flat text of a run sequence, with styling erased.
pub open spec fn out_text(out: Seq<(TextStyle, Seq<char>)>) -> Seq<char>
    decreases out.len(),
{
    if out.len() == 0 {
        Seq::empty()
    } else {
        out_text(out.drop_last()) + out.last().1
    }
}

/// A print appends exactly its text to the flat output, whatever the
/// style and however the runs coalesce.
pub proof fn lemma_print_text(out: Seq<(TextStyle, Seq<char>)>, style: TextStyle, text: Seq<char>)
    ensures
        out_text(print_spec(out, style, text)) == out_text(out) + text,
{
    let r = print_spec(out, style, text);
    if out.len() > 0 && out.last().0 == style {
        assert(r.drop_last() =~= out.drop_last());
        assert(out_text(r) == out_text(r.drop_last()) + (out.last().1 + text));
        assert(out_text(out) == out_text(out.drop_last()) + out.last().1);
        assert(out_text(r.drop_last()) == out_text(out.drop_last()));
        assert((out_text(out.drop_last()) + out.last().1) + text =~= out_text(out.drop_last()) + (
        out.last().1 + text));
    } else {
        assert(r.drop_last() =~= out);
        assert(out_text(r) == out_text(r.drop_last()) + text);
        assert(out_text(r.drop_last()) == out_text(out));
    }
}

/// A raw append adds exactly its text to the flat output.
pub proof fn lemma_raw_text(out: Seq<(TextStyle, Seq<char>)>, text: Seq<char>)
    ensures
        out_text(raw_spec(out, text)) == out_text(out) + text,
{
    let r = raw_spec(out, text);
    if out.len() > 0 {
        assert(r.drop_last() =~= out.drop_last());
        assert(out_text(r) == out_text(r.drop_last()) + (out.last().1 + text));
        assert(out_text(out) == out_text(out.drop_last()) + out.last().1);
        assert(out_text(r.drop_last()) == out_text(out.drop_last()));
        assert((out_text(out.drop_last()) + out.last().1) + text =~= out_text(out.drop_last()) + (
        out.last().1 + text));
    } else {
        assert(r.drop_last() =~= out);
        assert(out_text(r) == out_text(r.drop_last()) + text);
        assert(out_text(r.drop_last()) == out_text(out));
    }
}

/// The output sink: accumulates styled runs, merging adjacent prints of
/// equal style so that each run boundary is a real style change.
pub struct StyledOut {
    pub runs: Vec<StyledRun>,
}

impl View for StyledOut {
    type V = Seq<(TextStyle, Seq<char>)>;

    open spec fn view(&self) -> Seq<(TextStyle, Seq<char>)> {
        Seq::new(self.runs@.len(), |i: int| self.runs@[i]@)
    }
}

impl StyledOut {
    pub fn new() -> (r: StyledOut)
        ensures
            r@ == Seq::<(TextStyle, Seq<char>)>::empty(),
    {
        let r = StyledOut { runs: Vec::new() };
        proof {
            assert(r@ =~= Seq::<(TextStyle, Seq<char>)>::empty());
        }
        r
    }

    /// Emit `text` under `style`, merging with the current run when the
    /// style is unchanged.
    pub fn print(&mut self, style: TextStyle, text: &str)
        ensures
            final(self)@ == print_spec(old(self)@, style, text@),
    {
        let n = self.runs.len();
        if n > 0 && self.runs[n - 1].style == style {
            let mut run = self.runs.pop().unwrap();
            run.text.append(text);
            self.runs.push(run);
            proof {
                assert(self@ =~~= print_spec(old(self)@, style, text@));
            }
        } else {
            let mut t = String::new();
            t.append(text);
            self.runs.push(StyledRun { style, text: t });
            proof {
                assert(self@ =~~= print_spec(old(self)@, style, text@));
            }
        }
    }

    /// Emit `text` with no style transition: it continues the current run.
    pub fn raw(&mut self, text: &str)
        ensures
            final(self)@ == raw_spec(old(self)@, text@),
    {
        let n = self.runs.len();
        if n > 0 {
            let mut run = self.runs.pop().unwrap();
            run.text.append(text);
            self.runs.push(run);
            proof {
                assert(self@ =~~= raw_spec(old(self)@, text@));
            }
        } else {
            let mut t = String::new();
            t.append(text);
            self.runs.push(StyledRun { style: TextStyle::plain(), text: t });
            proof {
                assert(self@ =~~= raw_spec(old(self)@, text@));
            }
        }
    }
}

} // verus!
