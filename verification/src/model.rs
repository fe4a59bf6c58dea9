//! The meal plan and what it is made of.

use crate::number::{Amount, Decimal};
use vstd::prelude::*;

verus! {

/// Why a dish could not be read.
#[derive(Clone, Copy, PartialEq, Eq, Debug, Structural)]
pub enum ParseError {
    /// The label has fewer than six lines of content.
    MalformedInput,
    /// The first line names no CO2 footprint.
    MissingCO2,
    /// The second line gives no energy in kJ and kcal.
    MissingEnergy,
    /// The third line gives no amount of protein.
    MissingProtein,
    /// The fourth line gives fewer than two amounts of fat.
    MissingFat,
    /// The fifth line gives fewer than two amounts of carbohydrate.
    MissingCarbohydrate,
    /// The sixth line gives no amount of salt.
    MissingSalt,
    /// The price text does not hold exactly three amounts.
    MalformedPrice,
}

/// The nutrition table of one dish.
#[derive(Debug, PartialEq, Eq)]
pub struct NutritionalInfo {
    pub energy_kj: Decimal,
    pub energy_kcal: Decimal,
    /// Grams of protein.
    pub protein: Decimal,
    /// Grams of fat: in total, and saturated.
    pub fat: (Decimal, Decimal),
    /// Grams of carbohydrate: in total, and sugar.
    pub carbohydrates: (Decimal, Decimal),
    /// Grams of salt.
    pub salt: Decimal,
}

/// The nutrition table as plain amounts.
pub ghost struct Nutrition {
    pub energy_kj: Amount,
    pub energy_kcal: Amount,
    pub protein: Amount,
    pub fat: (Amount, Amount),
    pub carbohydrates: (Amount, Amount),
    pub salt: Amount,
}

impl View for NutritionalInfo {
    type V = Nutrition;

    open spec fn view(&self) -> Nutrition {
        Nutrition {
            energy_kj: self.energy_kj@,
            energy_kcal: self.energy_kcal@,
            protein: self.protein@,
            fat: (self.fat.0@, self.fat.1@),
            carbohydrates: (self.carbohydrates.0@, self.carbohydrates.1@),
            salt: self.salt@,
        }
    }
}

/// What a nutrition label says of its dish.
#[derive(Debug, PartialEq, Eq)]
pub struct Label {
    pub name: String,
    pub co2_grams: i32,
    pub nutrition: NutritionalInfo,
}

/// A label as plain values.
pub ghost struct LabelView {
    pub name: Seq<char>,
    pub co2_grams: i32,
    pub nutrition: Nutrition,
}

impl View for Label {
    type V = LabelView;

    open spec fn view(&self) -> LabelView {
        LabelView { name: self.name@, co2_grams: self.co2_grams, nutrition: self.nutrition@ }
    }
}

/// What a dish costs a student, an employee and a guest.
#[derive(Debug, PartialEq, Eq)]
pub struct Prices {
    pub student: Decimal,
    pub employee: Decimal,
    pub guest: Decimal,
}

/// The three prices as plain amounts.
pub ghost struct PricesView {
    pub student: Amount,
    pub employee: Amount,
    pub guest: Amount,
}

impl View for Prices {
    type V = PricesView;

    open spec fn view(&self) -> PricesView {
        PricesView { student: self.student@, employee: self.employee@, guest: self.guest@ }
    }
}

/// One dish of the plan.
#[derive(Debug, PartialEq, Eq)]
pub struct Dish {
    pub name: String,
    /// Grams of CO2 per portion.
    pub co2: i32,
    /// The dietary tags, each once, in the order in which the dish's icons
    /// first showed them.
    pub dietary_info: Vec<String>,
    pub prices: Prices,
    pub nutrition: NutritionalInfo,
}

/// A dish as plain values.
pub ghost struct DishView {
    pub name: Seq<char>,
    pub co2: i32,
    pub dietary_info: Seq<Seq<char>>,
    pub prices: PricesView,
    pub nutrition: Nutrition,
}

impl DishView {
    /// The dietary tags as a set.
    pub open spec fn tags(self) -> Set<Seq<char>> {
        self.dietary_info.to_set()
    }
}

impl View for Dish {
    type V = DishView;

    open spec fn view(&self) -> DishView {
        DishView {
            name: self.name@,
            co2: self.co2,
            dietary_info: self.dietary_info@.map_values(|s: String| s@),
            prices: self.prices@,
            nutrition: self.nutrition@,
        }
    }
}

impl Dish {
    /// No dietary tag is listed twice.
    pub open spec fn wf(&self) -> bool {
        self@.dietary_info.no_duplicates()
    }
}

/// A named group of dishes, as the page presents it.
#[derive(Debug, PartialEq, Eq)]
pub struct Section {
    pub name: String,
    pub dishes: Vec<Dish>,
}

/// A section as plain values.
pub ghost struct SectionView {
    pub name: Seq<char>,
    pub dishes: Seq<DishView>,
}

/// The dishes held by a list of dishes.
pub open spec fn dishes_view(v: Seq<Dish>) -> Seq<DishView> {
    v.map_values(|d: Dish| d@)
}

impl View for Section {
    type V = SectionView;

    open spec fn view(&self) -> SectionView {
        SectionView { name: self.name@, dishes: dishes_view(self.dishes@) }
    }
}

impl Section {
    /// Every dish is well formed.
    pub open spec fn wf(&self) -> bool {
        forall|i: int| 0 <= i < self.dishes.len() ==> (#[trigger] self.dishes[i]).wf()
    }
}

/// The meal plan of one day: its sections in the order of the page.
#[derive(Debug, PartialEq, Eq)]
pub struct Mealplan {
    pub menu: Vec<Section>,
}

impl View for Mealplan {
    type V = Seq<SectionView>;

    open spec fn view(&self) -> Seq<SectionView> {
        self.menu@.map_values(|s: Section| s@)
    }
}

impl Mealplan {
    /// Every section is well formed.
    pub open spec fn wf(&self) -> bool {
        forall|i: int| 0 <= i < self.menu.len() ==> (#[trigger] self.menu[i]).wf()
    }

    /// Whether the plan has no section at all.
    pub fn is_empty(&self) -> (r: bool)
        ensures
            r == (self@.len() == 0),
    {
        self.menu.len() == 0
    }
}

} // verus!
