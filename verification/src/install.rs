//! What installing the preprocessor into a book changes in the book's
//! configuration. Reading and writing the configuration file is the caller's
//! part; the decisions are made here.

use vstd::prelude::*;
use crate::text::text_eq;

verus! {

/// The command that the book builder runs for the preprocessor.
pub const PREPROCESSOR_COMMAND: &'static str = "mdbook-excalidraw";

/// Where the script is installed, relative to the book's directory.
pub const SCRIPT_PATH: &'static str = "theme/excalidraw.js";

/// Where the style sheet is installed, relative to the book's directory.
pub const STYLE_PATH: &'static str = "theme/excalidraw.css";

/// What the configuration holds under a key.
pub enum Slot<T> {
    /// Nothing: the key is not there.
    Missing,
    /// Something of another kind than the one that is expected there.
    Wrong,
    /// A value of the expected kind.
    Held(T),
}

/// What the table `output.html` holds. A list is given by its entries, those
/// that are no strings as `None`.
pub struct HtmlFacts {
    /// The list `additional-js`.
    pub scripts: Slot<Vec<Option<String>>>,
    /// The list `additional-css`.
    pub styles: Slot<Vec<Option<String>>>,
}

/// What the table `output` holds.
pub struct OutputFacts {
    /// The table `html`.
    pub html: Slot<HtmlFacts>,
}

/// What a book's configuration holds, as far as installing looks at it.
pub struct ConfigFacts {
    /// The table `preprocessor`, and in it whether the key `excalidraw` is
    /// there.
    pub preprocessor: Slot<bool>,
    /// The table `output`.
    pub output: Slot<OutputFacts>,
}

/// What installing adds to the configuration.
#[derive(Debug, Clone, Copy, PartialEq, Eq, Structural)]
pub struct ConfigPlan {
    /// The table `preprocessor.excalidraw` with its command.
    pub add_preprocessor: bool,
    /// The script's path, at the end of `output.html.additional-js`.
    pub add_script: bool,
    /// The style sheet's path, at the end of `output.html.additional-css`.
    pub add_style: bool,
}

/// Why a configuration cannot be changed.
#[derive(Debug, Clone, Copy, PartialEq, Eq, Structural)]
pub enum InstallError {
    PreprocessorNotTable,
    OutputNotTable,
    HtmlNotTable,
    ScriptsNotArray,
    StylesNotArray,
}

impl InstallError {
    /// The error in words.
    pub fn message(&self) -> (text: &'static str)
        ensures
            text@ == match *self {
                InstallError::PreprocessorNotTable => "preprocessor section is not a table"@,
                InstallError::OutputNotTable => "output section is not a table"@,
                InstallError::HtmlNotTable => "output.html section is not a table"@,
                InstallError::ScriptsNotArray => "additional-js is not an array"@,
                InstallError::StylesNotArray => "additional-css is not an array"@,
            },
    {
        match self {
            InstallError::PreprocessorNotTable => "preprocessor section is not a table",
            InstallError::OutputNotTable => "output section is not a table",
            InstallError::HtmlNotTable => "output.html section is not a table",
            InstallError::ScriptsNotArray => "additional-js is not an array",
            InstallError::StylesNotArray => "additional-css is not an array",
        }
    }
}

/// The entry is the string `path`.
pub open spec fn names(entry: Option<String>, path: Seq<char>) -> bool {
    entry matches Some(text) && text@ == path
}

/// One of the entries is the string `path`.
pub open spec fn lists(entries: Seq<Option<String>>, path: Seq<char>) -> bool {
    exists|i: int| 0 <= i < entries.len() && names(#[trigger] entries[i], path)
}

/// The path has to be added to the list: the list is not there yet, or it
/// does not hold the path.
pub open spec fn lacks(list: Slot<Vec<Option<String>>>, path: Seq<char>) -> bool {
    match list {
        Slot::Held(entries) => !lists(entries@, path),
        _ => true,
    }
}

/// What installing does with a configuration. The tables are looked at in the
/// order `preprocessor`, `output`, `output.html`, then the two lists; the
/// first that holds something of the wrong kind is the error. A table or a
/// list that is missing is made, so below a missing table nothing can be
/// wrong.
pub open spec fn planned(facts: ConfigFacts) -> Result<ConfigPlan, InstallError> {
    let add_preprocessor = facts.preprocessor != Slot::Held(true);
    if facts.preprocessor is Wrong {
        Err(InstallError::PreprocessorNotTable)
    } else {
        match facts.output {
            Slot::Wrong => Err(InstallError::OutputNotTable),
            Slot::Missing => Ok(ConfigPlan { add_preprocessor, add_script: true, add_style: true }),
            Slot::Held(output) => match output.html {
                Slot::Wrong => Err(InstallError::HtmlNotTable),
                Slot::Missing => Ok(
                    ConfigPlan { add_preprocessor, add_script: true, add_style: true },
                ),
                Slot::Held(html) => if html.scripts is Wrong {
                    Err(InstallError::ScriptsNotArray)
                } else if html.styles is Wrong {
                    Err(InstallError::StylesNotArray)
                } else {
                    Ok(
                        ConfigPlan {
                            add_preprocessor,
                            add_script: lacks(html.scripts, SCRIPT_PATH@),
                            add_style: lacks(html.styles, STYLE_PATH@),
                        },
                    )
                },
            },
        }
    }
}

/// Whether one of the entries of a list is the string `path`.
pub fn lists_path(entries: &Vec<Option<String>>, path: &str) -> (found: bool)
    ensures
        found == lists(entries@, path@),
{
    let mut i: usize = 0;
    while i < entries.len()
        invariant
            0 <= i <= entries.len(),
            forall|k: int| 0 <= k < i ==> !names(#[trigger] entries@[k], path@),
        decreases entries.len() - i,
    {
        if let Some(entry) = &entries[i] {
            if text_eq(entry.as_str(), path) {
                return true;
            }
        }
        i += 1;
    }
    false
}

fn list_lacks(list: &Slot<Vec<Option<String>>>, path: &str) -> (lacking: bool)
    ensures
        lacking == lacks(*list, path@),
{
    match list {
        Slot::Held(entries) => !lists_path(entries, path),
        _ => true,
    }
}

/// Decides what installing adds to a book's configuration, or why it cannot.
pub fn plan_config(facts: &ConfigFacts) -> (result: Result<ConfigPlan, InstallError>)
    ensures
        result == planned(*facts),
{
    let add_preprocessor = match facts.preprocessor {
        Slot::Wrong => {
            return Err(InstallError::PreprocessorNotTable);
        },
        Slot::Missing => true,
        Slot::Held(configured) => !configured,
    };
    let fresh = ConfigPlan { add_preprocessor, add_script: true, add_style: true };
    match &facts.output {
        Slot::Wrong => Err(InstallError::OutputNotTable),
        Slot::Missing => Ok(fresh),
        Slot::Held(output) => match &output.html {
            Slot::Wrong => Err(InstallError::HtmlNotTable),
            Slot::Missing => Ok(fresh),
            Slot::Held(html) => {
                if let Slot::Wrong = html.scripts {
                    Err(InstallError::ScriptsNotArray)
                } else if let Slot::Wrong = html.styles {
                    Err(InstallError::StylesNotArray)
                } else {
                    Ok(
                        ConfigPlan {
                            add_preprocessor,
                            add_script: list_lacks(&html.scripts, SCRIPT_PATH),
                            add_style: list_lacks(&html.styles, STYLE_PATH),
                        },
                    )
                }
            },
        },
    }
}

} // verus!
