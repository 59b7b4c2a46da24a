//! The state that a session keeps.

use crate::craft::Papercraft;
use vstd::prelude::*;
use vstd::string::StringExecFns;

verus! {

/// The project that a session works on.
#[derive(Debug)]
pub struct PapercraftState {
    pub project: Papercraft,
}

impl PapercraftState {
    /// The papercraft of the project.
    pub fn papercraft(&self) -> (craft: &Papercraft)
        ensures
            *craft == self.project,
    {
        &self.project
    }
}

/// The state of a session: its project and the settings of its last
/// export.
#[derive(Debug)]
pub struct GlobalContext {
    pub data: PapercraftState,
    pub last_export: String,
    pub last_export_filter: Option<i32>,
    /// Ratio between the height of a line of text and the font size.
    pub font_text_line_scale: i64,
}

impl GlobalContext {
    /// The title of the session.
    pub fn title(&self, _modified: bool) -> (s: String)
        ensures
            s@ == "Papercraft Web"@,
    {
        String::from_str("Papercraft Web")
    }
}

} // verus!
