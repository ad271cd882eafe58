//! Descriptions of the interactive input a node needs before the graph can go on.
use crate::json::Value;
use vstd::prelude::*;

verus! {

/// How an option is to be shown when it is a placeholder rather than a choice.
#[derive(Clone, Copy, Debug, PartialEq, Eq, Structural)]
pub enum ListOptionMark {
    Hint,
    Error,
}

/// One choice of a list prompt: the text shown and the value it stands for.
pub struct ListOption {
    pub title: String,
    pub value: Value,
    pub description: Option<String>,
    pub mark: Option<ListOptionMark>,
}

/// A question for the driver.
#[allow(inconsistent_fields)]
pub enum Prompt {
    Input { text: String, default: Option<String> },
    Password { text: String },
    Select { text: String, options: Vec<ListOption>, default: Option<usize> },
    FuzzySelect { text: String, options: Vec<ListOption>, default: Option<usize> },
    MultiSelect { text: String, options: Vec<ListOption>, default: Option<Vec<usize>> },
    Confirm { text: String, default: Option<bool> },
}

} // verus!
