use ulmensa::extract::extract;
use ulmensa::plan::{assemble, assemble_dish, rejected};
use ulmensa::label::Patterns;
use ulmensa::{parse_menu, ParseError};

fn dish(name: &str, extra: &str) -> String {
    format!(
        "<div class=\"row splMeal\" lang=\"de\">\
           <div style=\"width:8%;float:left\"><img src=\"a.png\" title=\"vegetarisch\"><img src=\"b.png\"><img src=\"c.png\" title=\"Gluten\"><img src=\"d.png\" title=\"vegetarisch\"></div>\
           <div style=\"width:92%;float:left\"><span style=\"font-weight:bold\">{name}</span> CO2 Fußabdruck <b>pro Portion</b> 1.234 g\n\
             Nährwertangaben pro Portion:\n\
             <br>2.000,5 kJ / 478 kcal\n<br>Eiweiß 20 g\n<br>Fett 10 g, davon gesättigt 3 g\n<br>Kohlenhydrate 40 g, davon Zucker 5 g\n<br>Salz 2,5 g\n</div>\
           {extra}\
         </div>"
    )
}

fn page() -> String {
    format!(
        "<html><body><div id=\"plan\">\n\
         <div class=\"gruppenkopf\"><div class=\"gruppenname\">\n  Fleisch und Fisch </div><span>heute</span></div>\n\
         {}\n<!-- Trenner -->\n{}\n\
         <div class=\"gruppenkopf\"><div><div class=\"gruppenname\">Pasta</div></div></div>\n\
         {}\n\
         </div></body></html>",
        dish("Chicken Curry", "<div><span>Preis</span><span>€ 3,50 | € 4,20 | € 5,00</span></div>"),
        dish("Lachs", ""),
        dish("Spaghetti", "<span>3,00 € | 4,00 € | 5,00 €</span>"),
    )
}

#[test]
fn two_sections_with_two_and_one_dishes() {
    let groups = extract(&page());
    assert_eq!(groups.len(), 2);
    assert_eq!(groups[0].name, "Fleisch und Fisch");
    assert_eq!(groups[1].name, "Pasta");
    assert_eq!(groups[0].fragments.len(), 2);
    assert_eq!(groups[1].fragments.len(), 1);
    let f = &groups[0].fragments[0];
    assert!(f.raw_text.as_ref().unwrap().starts_with("Chicken Curry CO2 Fußabdruck pro Portion 1.234 g\n"));
    assert_eq!(f.icon_titles, vec!["vegetarisch", "Gluten", "vegetarisch"]);
    assert_eq!(f.price_span_text.as_deref(), Some("€ 3,50 | € 4,20 | € 5,00"));
    assert_eq!(groups[0].fragments[1].price_span_text, None);
    assert_eq!(groups[1].fragments[0].price_span_text.as_deref(), Some("3,00 € | 4,00 € | 5,00 €"));
}

#[test]
fn plan_of_a_page() {
    let plan = parse_menu(&page());
    assert!(!plan.is_empty());
    assert_eq!(plan.menu.len(), 2);
    assert_eq!(plan.menu[0].name, "Fleisch und Fisch");
    assert_eq!(plan.menu[0].dishes.len(), 2);
    assert_eq!(plan.menu[1].dishes.len(), 1);
    let curry = &plan.menu[0].dishes[0];
    assert_eq!(curry.name, "Chicken Curry ");
    assert_eq!(curry.co2, 1234);
    assert_eq!(curry.dietary_info, vec!["vegetarisch", "Gluten"]);
    assert_eq!(curry.prices.student.whole_digits(), &vec![3]);
    assert_eq!(curry.prices.student.frac_digits(), &vec![5, 0]);
    assert_eq!(curry.prices.guest.whole_digits(), &vec![5]);
    assert_eq!(curry.nutrition.energy_kj.whole_digits(), &vec![0, 0, 0]);
    assert_eq!(curry.nutrition.energy_kj.frac_digits(), &vec![5]);
    assert_eq!(curry.nutrition.salt.whole_digits(), &vec![2]);
    assert_eq!(curry.nutrition.salt.frac_digits(), &vec![5]);
    let lachs = &plan.menu[0].dishes[1];
    assert_eq!(lachs.name, "Lachs ");
    assert_eq!(lachs.prices.student.whole_digits(), &vec![0]);
    assert_eq!(lachs.prices.employee.frac_digits(), &Vec::<u8>::new());
    assert_eq!(plan.menu[1].dishes[0].name, "Spaghetti ");
}

#[test]
fn unreadable_dish_is_left_out_and_its_section_stays() {
    let broken = "<div class=\"splMeal\"><div style=\"width:92%\">Eintopf\nohne Angaben</div></div>";
    let no_label = "<div class=\"splmeal\"><span>€ 1 | € 2 | € 3</span></div>";
    let bad_price = dish("Suppe", "<span>€ 1 | € 2</span>");
    let html = format!(
        "<div class=\"gruppenkopf\"><div class=\"gruppenname\">A</div></div>{}{}{}{}{}\
         <div class=\"gruppenkopf\"><div class=\"gruppenname\">B</div></div>{}\
         <div class=\"gruppenkopf\"><div class=\"gruppenname\">C</div></div>",
        dish("Eins", ""),
        broken,
        no_label,
        bad_price,
        dish("Zwei", ""),
        broken,
    );
    let groups = extract(&html);
    assert_eq!(groups.iter().map(|g| g.fragments.len()).collect::<Vec<_>>(), vec![5, 1, 0]);
    let patterns = Patterns::new();
    let reasons: Vec<Option<ParseError>> =
        groups[0].fragments.iter().map(|f| assemble_dish(&patterns, f).err()).collect();
    assert_eq!(
        reasons,
        vec![
            None,
            Some(ParseError::MalformedInput),
            Some(ParseError::MalformedInput),
            Some(ParseError::MalformedPrice),
            None
        ]
    );
    assert_eq!(
        rejected(&patterns, &groups[0]),
        vec![
            (1, ParseError::MalformedInput),
            (2, ParseError::MalformedInput),
            (3, ParseError::MalformedPrice)
        ]
    );
    assert_eq!(rejected(&patterns, &groups[1]), vec![(0, ParseError::MalformedInput)]);
    assert_eq!(rejected(&patterns, &groups[2]), vec![]);
    let plan = assemble(&groups);
    assert_eq!(plan.menu.len(), 3);
    assert_eq!(plan.menu[0].dishes.iter().map(|d| d.name.as_str()).collect::<Vec<_>>(), vec!["Eins ", "Zwei "]);
    assert_eq!(plan.menu[1].name, "B");
    assert!(plan.menu[1].dishes.is_empty());
    assert!(plan.menu[2].dishes.is_empty());
    assert_eq!(plan, parse_menu(&html));
    let without = html.replace(broken, "").replace(no_label, "").replace(&bad_price, "");
    assert_eq!(parse_menu(&without), plan);
}

#[test]
fn page_without_sections_is_an_empty_plan() {
    assert!(parse_menu("").is_empty());
    assert!(parse_menu("<p>geschlossen</p>").is_empty());
    let orphan = dish("Allein", "");
    assert!(parse_menu(&orphan).is_empty());
}

#[test]
fn dishes_are_siblings_of_their_head() {
    let html = format!(
        "<div class=\"gruppenkopf\"><div class=\"gruppenname\">A</div>{}</div>\
         <section>{}</section>{}\
         <p class=\"gruppenkopf\">kein Kopf</p>{}",
        dish("Innen", ""),
        dish("Tiefer", ""),
        dish("Neben", ""),
        dish("Danach", ""),
    );
    let plan = parse_menu(&html);
    assert_eq!(plan.menu.len(), 1);
    let names: Vec<&str> = plan.menu[0].dishes.iter().map(|d| d.name.as_str()).collect();
    assert_eq!(names, vec!["Neben ", "Danach "]);
}

#[test]
fn walk_ends_where_the_parent_ends() {
    let html = format!(
        "<div><div class=\"gruppenkopf\"><div class=\"gruppenname\">A</div></div>{}</div>{}",
        dish("Drin", ""),
        dish("Draussen", ""),
    );
    let plan = parse_menu(&html);
    assert_eq!(plan.menu.len(), 1);
    let names: Vec<&str> = plan.menu[0].dishes.iter().map(|d| d.name.as_str()).collect();
    assert_eq!(names, vec!["Drin "]);
}

#[test]
fn head_without_name_gives_an_unnamed_section() {
    let html = format!("<div class=\"gruppenkopf\">Ohne</div>{}", dish("Eins", ""));
    let plan = parse_menu(&html);
    assert_eq!(plan.menu.len(), 1);
    assert_eq!(plan.menu[0].name, "");
    assert_eq!(plan.menu[0].dishes.len(), 1);
}

#[test]
fn same_page_gives_the_same_plan() {
    let html = page();
    assert_eq!(extract(&html), extract(&html));
    assert_eq!(parse_menu(&html), parse_menu(&html));
}
