//! What the user asks for on the command line.

use vstd::prelude::*;

verus! {

/// How the plan is shown.
#[derive(Clone, Copy, PartialEq, Eq, Debug, Structural)]
pub enum Format {
    Table,
    TableNutrition,
    Json,
}

/// The choices made on the command line.
#[derive(Clone, Copy, PartialEq, Eq, Debug, Structural)]
pub struct Args {
    /// Show the nutritional values as well.
    pub nutritional_info: bool,
    /// Number of days ahead of today.
    pub days: u8,
    /// Show the plan as JSON.
    pub json: bool,
}

impl Args {
    /// The format that the choices ask for: JSON wins over the table with
    /// nutritional values, which wins over the plain table.
    pub open spec fn chosen(self) -> Format {
        if self.json {
            Format::Json
        } else if self.nutritional_info {
            Format::TableNutrition
        } else {
            Format::Table
        }
    }

    /// Picks the format that the choices ask for.
    pub fn format(&self) -> (f: Format)
        ensures
            f == self.chosen(),
    {
        if self.json {
            Format::Json
        } else if self.nutritional_info {
            Format::TableNutrition
        } else {
            Format::Table
        }
    }
}

/// Gathers the choices once the command line has been taken apart.
pub fn get_args(nutritional_info: bool, days: u8, json: bool) -> (args: Args)
    ensures
        args == (Args { nutritional_info, days, json }),
{
    Args { nutritional_info, days, json }
}

} // verus!
