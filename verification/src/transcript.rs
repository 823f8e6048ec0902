//! What a performance prints: lines for the audience and, where asked for,
//! warnings beside them, in the order in which they arise.
use vstd::prelude::*;

verus! {

/// Where a line is printed.
#[derive(Clone, Copy, Debug, PartialEq, Eq, Structural)]
pub enum Channel {
    /// Standard output: the play itself.
    Stage,
    /// Standard error: advisory warnings.
    Aside,
}

/// One printed line, without its line terminator.
#[derive(Clone, Debug, PartialEq, Eq)]
pub struct Line {
    pub channel: Channel,
    pub text: String,
}

/// A `Line` with its text as a sequence of characters.
pub struct LineView {
    pub channel: Channel,
    pub text: Seq<char>,
}

impl View for Line {
    type V = LineView;

    open spec fn view(&self) -> LineView {
        LineView { channel: self.channel, text: self.text@ }
    }
}

impl DeepView for Line {
    type V = LineView;

    open spec fn deep_view(&self) -> LineView {
        self@
    }
}

/// A line of the play.
pub open spec fn said(text: Seq<char>) -> LineView {
    LineView { channel: Channel::Stage, text }
}

/// A warning.
pub open spec fn warned(text: Seq<char>) -> LineView {
    LineView { channel: Channel::Aside, text }
}

/// The empty line that separates parts of the play.
pub open spec fn blank_line() -> LineView {
    said(Seq::empty())
}

/// `extra` if warnings are wanted, nothing otherwise.
pub open spec fn if_whinging(whinge: bool, extra: Seq<LineView>) -> Seq<LineView> {
    if whinge {
        extra
    } else {
        Seq::empty()
    }
}

/// The lines of `lines` that are printed on `channel`, in their order.
pub open spec fn on_channel(lines: Seq<LineView>, channel: Channel) -> Seq<LineView>
    decreases lines.len(),
{
    if lines.len() == 0 {
        Seq::empty()
    } else if lines.last().channel == channel {
        on_channel(lines.drop_last(), channel).push(lines.last())
    } else {
        on_channel(lines.drop_last(), channel)
    }
}

/// The lines of `lines` that are part of the play, warnings left out.
pub open spec fn stage_lines(lines: Seq<LineView>) -> Seq<LineView> {
    on_channel(lines, Channel::Stage)
}

/// The warnings among `lines`.
pub open spec fn asides(lines: Seq<LineView>) -> Seq<LineView> {
    on_channel(lines, Channel::Aside)
}

/// The lines printed so far, and whether warnings are wanted at all.
pub struct Transcript {
    whinge: bool,
    lines: Vec<Line>,
}

impl View for Transcript {
    type V = Seq<LineView>;

    closed spec fn view(&self) -> Seq<LineView> {
        self.lines.deep_view()
    }
}

impl Transcript {
    /// Whether warnings are recorded.
    pub closed spec fn whinges(&self) -> bool {
        self.whinge
    }

    /// An empty transcript that records warnings if `whinge` is set.
    pub fn new(whinge: bool) -> (t: Transcript)
        ensures
            t@ == Seq::<LineView>::empty(),
            t.whinges() == whinge,
    {
        let t = Transcript { whinge, lines: Vec::new() };
        assert(t@ =~= Seq::<LineView>::empty());
        t
    }

    /// Whether warnings are recorded.
    pub fn whinge(&self) -> (b: bool)
        ensures
            b == self.whinges(),
    {
        self.whinge
    }

    /// Prints `text` as a line of the play.
    pub fn say(&mut self, text: String)
        ensures
            final(self)@ == old(self)@.push(said(text@)),
            final(self).whinges() == old(self).whinges(),
    {
        self.lines.push(Line { channel: Channel::Stage, text });
        assert(self@ =~= old(self)@.push(said(text@)));
    }

    /// Prints an empty line.
    pub fn say_blank(&mut self)
        ensures
            final(self)@ == old(self)@.push(blank_line()),
            final(self).whinges() == old(self).whinges(),
    {
        self.say(String::new());
    }

    /// Prints `text` as a warning, if warnings are recorded.
    pub fn warn(&mut self, text: String)
        ensures
            final(self)@ == if old(self).whinges() {
                old(self)@.push(warned(text@))
            } else {
                old(self)@
            },
            final(self).whinges() == old(self).whinges(),
    {
        if self.whinge {
            self.lines.push(Line { channel: Channel::Aside, text });
            assert(self@ =~= old(self)@.push(warned(text@)));
        }
    }

    /// The lines printed so far, oldest first.
    pub fn lines(&self) -> (r: &Vec<Line>)
        ensures
            r.deep_view() == self@,
    {
        &self.lines
    }
}

} // verus!
