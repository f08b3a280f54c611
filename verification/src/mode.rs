//! The editor's modes and the status-line label of each.
use vstd::prelude::*;

verus! {

/// The editor's input modes.
#[derive(Debug, Clone, Copy, PartialEq, Eq, Structural)]
pub enum Mode {
    Results,
    Normal,
    Insert,
    Visual(VisualKind),
    Command(CommandKind),
    Picker,
    MarkdownPreview,
    /// Focused on an embedded terminal pane, forwarding keystrokes to it as
    /// raw bytes.
    Terminal,
}

/// The shape of a Visual selection.
#[derive(Debug, Clone, Copy, PartialEq, Eq, Hash, Structural)]
pub enum VisualKind {
    Block,
    Char,
    Line,
}

/// What the command line is collecting.
#[derive(Debug, Clone, Copy, PartialEq, Eq, Structural)]
pub enum CommandKind {
    Ex,
    SearchFwd,
    SearchBack,
}

/// The status-line label of a mode.
pub open spec fn label_spec(m: Mode) -> Seq<char> {
    match m {
        Mode::Results => "RESULTS"@,
        Mode::Normal => "NORMAL"@,
        Mode::Insert => "INSERT"@,
        Mode::Visual(VisualKind::Char) => "VISUAL"@,
        Mode::Visual(VisualKind::Line) => "V-LINE"@,
        Mode::Visual(VisualKind::Block) => "V-BLOCK"@,
        Mode::Command(CommandKind::Ex) => "COMMAND"@,
        Mode::Command(_) => "SEARCH"@,
        Mode::Picker => "FILES"@,
        Mode::MarkdownPreview => "PREVIEW"@,
        Mode::Terminal => "TERMINAL"@,
    }
}

impl Mode {
    /// The status-line label of this mode.
    pub fn label(&self) -> (r: &'static str)
        ensures
            r@ == label_spec(*self),
    {
        match self {
            Mode::Results => "RESULTS",
            Mode::Normal => "NORMAL",
            Mode::Insert => "INSERT",
            Mode::Visual(VisualKind::Char) => "VISUAL",
            Mode::Visual(VisualKind::Line) => "V-LINE",
            Mode::Visual(VisualKind::Block) => "V-BLOCK",
            Mode::Command(CommandKind::Ex) => "COMMAND",
            Mode::Command(CommandKind::SearchFwd) => "SEARCH",
            Mode::Command(CommandKind::SearchBack) => "SEARCH",
            Mode::Picker => "FILES",
            Mode::MarkdownPreview => "PREVIEW",
            Mode::Terminal => "TERMINAL",
        }
    }
}

} // verus!
