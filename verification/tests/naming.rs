//! Tests of directory-identity logic, name disambiguation, the
//! file-name filters, and whole-document round trips.

use sweet_potator::directory::Directory;
use sweet_potator::filter::{FileNameFilter, TextFilter};
use sweet_potator::ingredient::{Ingredient, Integer, Quantity, QuantityValue};
use sweet_potator::list::{List, Section};
use sweet_potator::metadata::{Duration, Link, Metadata, Source, Yield};
use sweet_potator::recipe::Recipe;
use sweet_potator::util::UniqueNameFinder;

#[test]
fn unique_name_finder_test() {
    let mut finder = UniqueNameFinder::new(" (", ")");
    assert_eq!(finder.find("foo".to_string()), "foo");
    assert_eq!(finder.find("foo".to_string()), "foo (2)");
    assert_eq!(finder.find("foo (2)".to_string()), "foo (2) (2)");
    assert_eq!(finder.find("bar (2)".to_string()), "bar (2)");
    assert_eq!(finder.find("bar".to_string()), "bar");
    assert_eq!(finder.find("bar".to_string()), "bar (3)");
}

#[test]
fn test_from_title() {
    let directory = Directory::from_title("test", " a/b ").unwrap();
    assert_eq!(directory.name, "a_b");
    assert!(Directory::from_title("test", " ").is_err());
}

#[test]
fn directory_paths_follow_the_name() {
    let directory = Directory::from_title("root", "Soup").unwrap();
    assert_eq!(directory.path(), "root/Soup");
    assert_eq!(directory.recipe_path(), "root/Soup/Soup.recipe");
    assert_eq!(directory.file_name("jpg"), "Soup.jpg");
}

#[test]
fn creating_three_directories_numbers_them() {
    // Creating three directories from the same title in one root
    // yields `Soup`, `Soup (2)`, `Soup (3)`, in creation order.
    let mut siblings: Vec<String> = Vec::new();
    let mut names: Vec<String> = Vec::new();
    for _ in 0..3 {
        let mut directory = Directory::from_title("root", "Soup").unwrap();
        directory.disambiguate(&siblings);
        siblings.push(directory.name.clone());
        names.push(directory.name.clone());
    }
    assert_eq!(names, vec!["Soup", "Soup (2)", "Soup (3)"]);
}

#[test]
fn renaming_into_own_slot_keeps_it() {
    // `Soup (2)` renamed back to the title `Soup` while `Soup` exists:
    // the directory's own slot is not treated as occupied, so the name
    // stays `Soup (2)`.
    let siblings: Vec<String> = vec!["Soup".into(), "Soup (2)".into(), "Soup (3)".into()];
    let mut directory = Directory::from_parts("root", "Soup (2)");
    let renamed = directory.update_from_title("Soup", &siblings).unwrap();
    assert_eq!(directory.name, "Soup (2)");
    assert_eq!(renamed, Some("Soup (2)".to_string()));
}

#[test]
fn update_from_title_resolves_collisions() {
    // Renaming `recipe` to the title `new recipe` while `new recipe`
    // and `new recipe (1)` exist takes the first free numbered slot.
    let siblings: Vec<String> = vec![
        "recipe".into(),
        "new recipe".into(),
        "new recipe (1)".into(),
    ];
    let mut directory = Directory::from_parts("root", "recipe");
    let renamed = directory.update_from_title("new recipe", &siblings).unwrap();
    assert_eq!(directory.name, "new recipe (2)");
    assert_eq!(renamed, Some("recipe".to_string()));
    assert_eq!(directory.recipe_path(), "root/new recipe (2)/new recipe (2).recipe");
}

#[test]
fn update_from_title_is_a_no_op_for_the_same_name() {
    let siblings: Vec<String> = vec!["recipe".into()];
    let mut directory = Directory::from_parts("root", "recipe");
    let renamed = directory.update_from_title(" recipe ", &siblings).unwrap();
    assert_eq!(renamed, None);
    assert_eq!(directory.name, "recipe");
}

#[test]
fn suffix_reports_the_disambiguation_tail() {
    let directory = Directory::from_parts("root", "Soup (2)");
    assert_eq!(directory.suffix("Soup"), Some(" (2)".to_string()));
    let plain = Directory::from_parts("root", "Soup");
    assert_eq!(plain.suffix("Soup"), None);
    let other = Directory::from_parts("root", "Stew");
    assert_eq!(other.suffix("Soup"), None);
}

#[test]
fn image_names_must_match_directory_and_allow_list() {
    let directory = Directory::from_parts("root", "Soup");
    let exts: Vec<String> = vec!["jpg".into(), "png".into()];
    assert!(directory.is_image_name("Soup", "jpg", &exts));
    assert!(directory.is_image_name("Soup", "png", &exts));
    assert!(!directory.is_image_name("Soup", "gif", &exts));
    assert!(!directory.is_image_name("Stew", "jpg", &exts));
}

#[test]
fn file_name_filters_rewrite_text() {
    // Values from the filters' own documentation: sanitizing replaces
    // unsafe characters, slugifying lower-cases and dashes the text.
    assert_eq!(FileNameFilter::Sanitize.filter(" a/b "), "a_b");
    assert_eq!(FileNameFilter::Slugify.filter("My Test String!!!1!1"), "my-test-string-1-1");
    assert_eq!(FileNameFilter::default(), FileNameFilter::Sanitize);
}

fn sample_recipe(
    duration: Option<Duration>,
    source: Option<Source>,
    tags: Vec<String>,
    sectioned: bool,
    notes: Vec<String>,
) -> Recipe {
    let ingredients = if sectioned {
        List::Sectioned(vec![Section::new(
            "wet".into(),
            vec![Ingredient {
                name: "water".into(),
                kind: Some("cold".into()),
                quantity: Some(Quantity {
                    value: QuantityValue::Integer(Integer(2)),
                    unit: Some("cups".into()),
                    note: Some("roughly".into()),
                }),
            }],
        )])
    } else {
        List::Basic(vec![Ingredient {
            name: "water".into(),
            kind: None,
            quantity: None,
        }])
    };
    let instructions = if sectioned {
        List::Sectioned(vec![Section::new(
            "start".into(),
            vec!["boil".into(), "stir".into()],
        )])
    } else {
        List::Basic(vec!["boil".into()])
    };
    Recipe {
        title: "Soup".into(),
        metadata: Metadata {
            duration,
            yields: Yield {
                value: 4,
                unit: Some("bowls".into()),
            },
            source,
            tags,
        },
        ingredients,
        instructions,
        notes,
    }
}

#[test]
fn recipe_round_trips_through_its_text() {
    // Formatting then parsing returns a structurally equal value, over
    // the combinations of optional fields and both list shapes.
    let durations = [None, Some(Duration { hours: 1, minutes: 30 })];
    let sources = [
        None,
        Some(Source::Author("someone".to_string())),
        Some(Source::Book("somebook".to_string())),
        Some(Source::Link(Link {
            name: "site".into(),
            url: "https://example.org".into(),
        })),
    ];
    for duration in durations {
        for source in &sources {
            for sectioned in [false, true] {
                for with_tags in [false, true] {
                    for with_notes in [false, true] {
                        let tags: Vec<String> = if with_tags {
                            vec!["fast".into(), "warm".into()]
                        } else {
                            Vec::new()
                        };
                        let notes: Vec<String> = if with_notes {
                            vec!["serve hot".into()]
                        } else {
                            Vec::new()
                        };
                        let recipe = sample_recipe(
                            duration,
                            match source {
                                Some(Source::Author(a)) => Some(Source::Author(a.clone())),
                                Some(Source::Book(b)) => Some(Source::Book(b.clone())),
                                Some(Source::Link(l)) => Some(Source::Link(Link {
                                    name: l.name.clone(),
                                    url: l.url.clone(),
                                })),
                                None => None,
                            },
                            tags,
                            sectioned,
                            notes,
                        );
                        let text = recipe.format();
                        let reparsed = Recipe::parse_from(&text).unwrap();
                        assert_eq!(reparsed, recipe);
                    }
                }
            }
        }
    }
}
