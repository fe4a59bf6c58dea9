//! Canteen meal plans: finding the sections and dish blocks in the page
//! that the canteen publishes, and reading the nutrition label and the
//! prices printed with each dish.
//!
//! A page goes through three steps. [`extract`] finds the sections and,
//! under each, the dish blocks with their raw texts. [`parse`] reads the
//! label of one dish and [`extract_prices`] its prices. [`plan::assemble`]
//! keeps the dishes that read well under their sections. [`parse_menu`]
//! does all of it.

pub mod cli;
pub mod dom;
pub mod extract;
pub mod label;
pub mod model;
pub mod number;
pub mod plan;
pub mod prices;
pub mod text;
pub mod written;

pub use cli::{get_args, Args, Format};
pub use extract::extract;
pub use label::parse;
pub use model::{Dish, Label, Mealplan, NutritionalInfo, ParseError, Prices, Section};
pub use number::Decimal;
pub use plan::parse_menu;
pub use prices::extract_prices;
