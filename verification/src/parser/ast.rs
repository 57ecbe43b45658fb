//! The tree that a configuration parses to.
use vstd::prelude::*;

use crate::parser::geometry::{mode_view, ModeView, Position};
use crate::parser::number::{FloatLiteral, Numeral};

verus! {

/// A configuration: its profiles and top-level outputs, in the order in
/// which they were written.
#[derive(Debug, Clone, PartialEq)]
pub struct Config {
    pub items: Vec<ConfigItem>,
}

#[derive(Debug, Clone, PartialEq)]
pub enum ConfigItem {
    Profile(Profile),
    /// Reserved: the parser builds none.
    Include(IncludeDirective),
    /// An output that stands outside any profile.
    Output(OutputConfig),
}

/// A named group of outputs that are configured together.
#[derive(Debug, Clone, PartialEq)]
pub struct Profile {
    pub name: Option<String>,
    pub outputs: Vec<OutputConfig>,
    /// Reserved: the parser leaves it empty.
    pub execs: Vec<ExecDirective>,
}

/// Which output a configuration is for.
#[derive(Debug, Clone, PartialEq)]
pub enum OutputDesc {
    Name(String),
    /// Reserved: the parser builds none.
    Any,
}

/// One output and what is asked of it, in the order in which it was written.
#[derive(Debug, Clone, PartialEq)]
pub struct OutputConfig {
    pub desc: OutputDesc,
    pub commands: Vec<OutputCommand>,
}

#[derive(Debug, Clone, PartialEq)]
pub enum OutputCommand {
    Enable,
    Disable,
    Mode { width: u32, height: u32, frequency: Option<FloatLiteral> },
    Position { x: i32, y: i32 },
    Scale(Numeral),
    Transform(Transform),
    AdaptiveSync(bool),
}

/// A rotation, a flip, or both.
#[derive(Debug, Clone, Copy, PartialEq, Eq, Structural)]
pub enum Transform {
    Normal,
    Rotate90,
    Rotate180,
    Rotate270,
    Flipped,
    Flipped90,
    Flipped180,
    Flipped270,
}

#[derive(Debug, Clone, PartialEq)]
pub struct ExecDirective {
    pub command: String,
}

#[derive(Debug, Clone, PartialEq)]
pub struct IncludeDirective {
    pub path: String,
}

/// A configuration as a mathematical value.
pub struct ConfigView {
    pub items: Seq<ConfigItemView>,
}

pub enum ConfigItemView {
    Profile(ProfileView),
    Include(Seq<char>),
    Output(OutputConfigView),
}

pub struct ProfileView {
    pub name: Option<Seq<char>>,
    pub outputs: Seq<OutputConfigView>,
    pub execs: Seq<Seq<char>>,
}

pub enum OutputDescView {
    Name(Seq<char>),
    Any,
}

pub struct OutputConfigView {
    pub desc: OutputDescView,
    pub commands: Seq<OutputCommandView>,
}

pub enum OutputCommandView {
    Enable,
    Disable,
    Mode(ModeView),
    Position(Position),
    Scale(Seq<char>),
    Transform(Transform),
    AdaptiveSync(bool),
}

impl View for ExecDirective {
    type V = Seq<char>;

    open spec fn view(&self) -> Seq<char> {
        self.command@
    }
}

impl View for IncludeDirective {
    type V = Seq<char>;

    open spec fn view(&self) -> Seq<char> {
        self.path@
    }
}

impl View for OutputDesc {
    type V = OutputDescView;

    open spec fn view(&self) -> OutputDescView {
        match self {
            OutputDesc::Name(s) => OutputDescView::Name(s@),
            OutputDesc::Any => OutputDescView::Any,
        }
    }
}

impl View for OutputCommand {
    type V = OutputCommandView;

    open spec fn view(&self) -> OutputCommandView {
        match self {
            OutputCommand::Enable => OutputCommandView::Enable,
            OutputCommand::Disable => OutputCommandView::Disable,
            OutputCommand::Mode { width, height, frequency } => OutputCommandView::Mode(
                mode_view(*width, *height, *frequency),
            ),
            OutputCommand::Position { x, y } => OutputCommandView::Position(
                Position { x: *x, y: *y },
            ),
            OutputCommand::Scale(n) => OutputCommandView::Scale(n@),
            OutputCommand::Transform(t) => OutputCommandView::Transform(*t),
            OutputCommand::AdaptiveSync(on) => OutputCommandView::AdaptiveSync(*on),
        }
    }
}

/// The commands of `commands` as mathematical values, in order.
pub open spec fn command_views(commands: Seq<OutputCommand>) -> Seq<OutputCommandView> {
    commands.map_values(|c: OutputCommand| c@)
}

impl View for OutputConfig {
    type V = OutputConfigView;

    open spec fn view(&self) -> OutputConfigView {
        OutputConfigView { desc: self.desc@, commands: command_views(self.commands@) }
    }
}

/// The outputs of `outputs` as mathematical values, in order.
pub open spec fn output_views(outputs: Seq<OutputConfig>) -> Seq<OutputConfigView> {
    outputs.map_values(|o: OutputConfig| o@)
}

impl View for Profile {
    type V = ProfileView;

    open spec fn view(&self) -> ProfileView {
        ProfileView {
            name: match self.name {
                Some(s) => Some(s@),
                None => None,
            },
            outputs: output_views(self.outputs@),
            execs: self.execs@.map_values(|e: ExecDirective| e@),
        }
    }
}

impl View for ConfigItem {
    type V = ConfigItemView;

    open spec fn view(&self) -> ConfigItemView {
        match self {
            ConfigItem::Profile(p) => ConfigItemView::Profile(p@),
            ConfigItem::Include(i) => ConfigItemView::Include(i@),
            ConfigItem::Output(o) => ConfigItemView::Output(o@),
        }
    }
}

/// The items of `items` as mathematical values, in order.
pub open spec fn item_views(items: Seq<ConfigItem>) -> Seq<ConfigItemView> {
    items.map_values(|i: ConfigItem| i@)
}

impl View for Config {
    type V = ConfigView;

    open spec fn view(&self) -> ConfigView {
        ConfigView { items: item_views(self.items@) }
    }
}

impl Profile {
    /// A profile named `s`, with no output yet.
    pub fn new(s: String) -> (p: Self)
        ensures
            p@ == (ProfileView { name: Some(s@), outputs: seq![], execs: seq![] }),
    {
        let p = Self { name: Some(s), outputs: Vec::new(), execs: Vec::new() };
        assert(p@.outputs =~= seq![]);
        assert(p@.execs =~= seq![]);
        p
    }
}

} // verus!
