//! Tests of the list model, the metadata block, the block reader, and
//! whole recipe documents.

use sweet_potator::ingredient::Ingredient;
use sweet_potator::list::{List, Section};
use sweet_potator::metadata::{Duration, Link, Metadata, Source, Yield};
use sweet_potator::reader::Reader;
use sweet_potator::recipe::Recipe;

const SECTIONED_LIST: &str = "section 1\n- item 1.1\n- item 1.2\nsection 2\n- item 2.1\n- item 2.2\n";

const TWO_INDENTED_SECTIONED_LIST: &str = "  section 1\n    - item 1.1\n    - item 1.2\n  section 2\n    - item 2.1\n    - item 2.2\n";

fn string_lines(text: &str) -> Vec<String> {
    text.trim().split('\n').map(Into::into).collect()
}

#[test]
fn test_count() {
    let list = List::Basic(vec!["item 1", "item 2"]);
    assert_eq!(list.count(), 2);
    let section1 = Section {
        name: "section 1".into(),
        items: vec!["item 1.1", "item 1.2"],
    };
    let section2 = Section {
        name: "section 2".into(),
        items: vec!["item 2.1"],
    };
    let list = List::Sectioned(vec![section1, section2]);
    assert_eq!(list.count(), 3);
}

#[test]
fn test_display_basic() {
    let list: List<String> = List::Basic(vec!["item 1".into(), "item 2".into()]);
    assert_eq!(list.format(""), "- item 1\n- item 2\n");
    assert_eq!(list.format("  "), "  - item 1\n  - item 2\n");
}

#[test]
fn test_display_sectioned() {
    let section1 = Section {
        name: "section 1".into(),
        items: vec!["item 1.1".to_string(), "item 1.2".to_string()],
    };
    let section2 = Section {
        name: "section 2".into(),
        items: vec!["item 2.1".to_string(), "item 2.2".to_string()],
    };
    let list = List::Sectioned(vec![section1, section2]);
    assert_eq!(list.format(""), SECTIONED_LIST);
    assert_eq!(list.format("  "), TWO_INDENTED_SECTIONED_LIST);
}

#[test]
fn test_parse_basic() {
    let list: List<String> =
        List::try_from(vec!["-  item 1".into(), "-  item 2".into()]).unwrap();
    assert!(matches!(list, List::Basic(items) if items == vec!("item 1", "item 2")))
}

#[test]
fn test_parse_basic_fail() {
    assert!(List::<String>::try_from(vec![
        "- item 1".into(),
        "- item 2".into(),
        String::new()
    ])
    .is_err());
}

#[test]
fn test_parse_basic_empty() {
    assert!(List::<String>::try_from(vec![String::new()]).is_err());
}

#[test]
fn test_parse_sectioned() {
    let list: List<String> = List::try_from(string_lines(SECTIONED_LIST)).unwrap();
    assert!(matches!(list, List::Sectioned(_)));
    if let List::Sectioned(sections) = list {
        assert_eq!(sections.len(), 2);
        let section = sections.get(0).unwrap();
        assert_eq!(section.name, "section 1");
        assert_eq!(section.items, vec!("item 1.1", "item 1.2"));
        let section = sections.get(1).unwrap();
        assert_eq!(section.name, "section 2");
        assert_eq!(section.items, vec!("item 2.1", "item 2.2"));
    }
}

#[test]
fn list_discriminant_follows_first_line() {
    // A leading bullet means a flat list; a bare line begins a section.
    let basic: List<String> = List::try_from(vec!["- a".into(), "- b".into()]).unwrap();
    assert!(matches!(basic, List::Basic(items) if items == vec!("a", "b")));
    let sectioned: List<String> = List::try_from(vec!["sec".into(), "- a".into()]).unwrap();
    if let List::Sectioned(sections) = sectioned {
        assert_eq!(sections.len(), 1);
        assert_eq!(sections[0].name, "sec");
        assert_eq!(sections[0].items, vec!("a"));
    } else {
        panic!("expected a sectioned list");
    }
    // A stray non-bullet line inside a flat list is an error.
    assert!(List::<String>::try_from(vec!["- a".into(), "b".into()]).is_err());
}

#[test]
fn test_metadata() {
    let map = vec![
        ("Yield".to_string(), "1  unit".to_string()),
        ("Link".to_string(), "name> > >url".to_string()),
        ("Tags".to_string(), "tag1 ,  tag2".to_string()),
    ];
    let metadata = Metadata::from_pairs(map).unwrap();
    assert_eq!(metadata.yields.value, 1);
    assert_eq!(metadata.yields.unit.as_deref(), Some("unit"));
    assert!(
        matches!(&metadata.source, Some(Source::Link(link)) if link.name == "name>" && link.url == ">url")
    );
    assert_eq!(&metadata.tags, &["tag1", "tag2"]);
    assert_eq!(
        metadata.format(),
        "Yield: 1 unit\nLink: name> > >url\nTags: tag1, tag2\n"
    );
}

#[test]
fn test_metadata_empty() {
    assert!(Metadata::from_pairs(Vec::new()).is_err());
}

#[test]
fn test_metadata_missing_entries() {
    let map = vec![("Yield".to_string(), "1".to_string())];
    let metadata = Metadata::from_pairs(map).unwrap();
    assert_eq!(metadata.yields.value, 1);
    assert_eq!(metadata.format(), "Yield: 1\n");
}

#[test]
fn test_metadata_unkown_entries() {
    let map = vec![
        ("Yield".to_string(), "1".to_string()),
        ("Unknown".to_string(), "unknown".to_string()),
    ];
    assert!(Metadata::from_pairs(map).is_err());
}

#[test]
fn metadata_duplicate_key_is_an_error() {
    let lines: Vec<String> = vec!["Yield: 1".into(), "Yield: 2".into()];
    assert!(Metadata::try_from(lines).is_err());
}

#[test]
fn metadata_requires_yield_key() {
    let lines: Vec<String> = vec!["Time: 1h".into()];
    assert!(Metadata::try_from(lines).is_err());
    let lines: Vec<String> = vec!["Yield: 0".into()];
    assert!(Metadata::try_from(lines).is_err());
}

#[test]
fn metadata_rejects_two_sources() {
    let map = vec![
        ("Yield".to_string(), "1".to_string()),
        ("Author".to_string(), "a".to_string()),
        ("Book".to_string(), "b".to_string()),
    ];
    assert!(Metadata::from_pairs(map).is_err());
}

#[test]
fn test_normal() {
    let text = [
        "",
        "",
        "block 1, line 1",
        "block 1, line 2",
        " ",
        "",
        "",
        " ",
        "",
        "block 2, line 1",
        "",
        "",
    ]
    .join("\n");
    let mut reader = Reader::new(&text, false);
    assert_eq!(
        reader.next_block().unwrap(),
        vec!["block 1, line 1", "block 1, line 2", " "]
    );
    assert_eq!(reader.next_block().unwrap(), vec![" "]);
    assert_eq!(reader.next_block().unwrap(), vec!["block 2, line 1"]);
    assert_eq!(reader.next_block(), None);
}

#[test]
fn test_trimmed() {
    let text = [" ", "block", " ", "", " ", ""].join("\n");
    let mut reader = Reader::new(&text, true);
    assert_eq!(reader.next_block().unwrap(), vec!["block"]);
    assert_eq!(reader.next_block(), None);
}

const RECIPE_TO_PARSE: &str = " \n the title \n \n Yield :  10  u n i t \n Time: 1h  30m\n Link: the name  >  the url\n Tags: tag 1 ,  tag 2\n \n Ingredients \n section 1 \n -  name 1 ,  kind 1 :  10  1 unit  ( note 1 ) \n -  name 2 \n section 2 \n   - name \n \n Instructions \n section 1 \n - instruction 1 \n   - instruction 2 \n \n Notes \n  - note \n";

const RECIPE_TO_DISPLAY: &str = "title\n\nYield: 1 unit\nTime: 1h 30m\nLink: name > url\nTags: tag1, tag2\n\nIngredients\n  section\n    - name\n\nInstructions\n  section\n    - instruction\n\nNotes\n  - note\n";

#[test]
fn test_display() {
    let recipe = Recipe {
        title: "title".into(),
        metadata: Metadata {
            duration: Some(Duration {
                hours: 1,
                minutes: 30,
            }),
            yields: Yield {
                value: 1,
                unit: Some("unit".into()),
            },
            source: Some(Source::Link(Link {
                name: "name".into(),
                url: "url".into(),
            })),
            tags: vec!["tag1".into(), "tag2".into()],
        },
        ingredients: List::Sectioned(vec![Section::new(
            "section".into(),
            vec![Ingredient {
                name: "name".into(),
                kind: None,
                quantity: None,
            }],
        )]),
        instructions: List::Sectioned(vec![Section::new(
            "section".into(),
            vec!["instruction".into()],
        )]),
        notes: vec!["note".into()],
    };
    assert_eq!(recipe.format(), RECIPE_TO_DISPLAY)
}

#[test]
fn test_parse() {
    let recipe = Recipe::parse_from(RECIPE_TO_PARSE).unwrap();

    // title
    assert_eq!(recipe.title, "the title");

    // metadata
    let metadata = recipe.metadata;

    assert_eq!(metadata.yields.value, 10);
    assert_eq!(metadata.yields.unit.as_deref(), Some("u n i t"));
    assert!(metadata.duration.is_some());
    if let Some(duration) = metadata.duration {
        assert_eq!(duration.hours, 1);
        assert_eq!(duration.minutes, 30);
    }
    assert!(matches!(metadata.source, Some(Source::Link(_))));
    if let Some(Source::Link(link)) = metadata.source {
        assert_eq!(link.name, "the name");
        assert_eq!(link.url, "the url");
    }
    assert_eq!(metadata.tags, ["tag 1", "tag 2"]);

    // ingredients
    assert!(matches!(recipe.ingredients, List::Sectioned(_)));
    if let List::Sectioned(sections) = recipe.ingredients {
        assert_eq!(sections.len(), 2);

        // section 1
        let section = sections.get(0).unwrap();
        assert_eq!(section.name, "section 1");
        assert_eq!(section.items.len(), 2);
        let item = section.items.get(0).unwrap();
        assert_eq!(item.name, "name 1");
        assert_eq!(item.kind, Some("kind 1".into()));
        let quantity = item.quantity.as_ref().unwrap();
        assert_eq!(quantity.value.format(), "10");
        assert_eq!(quantity.unit, Some("1 unit".into()));
        assert_eq!(quantity.note, Some("note 1".into()));
        let item = section.items.get(1).unwrap();
        assert_eq!(item.name, "name 2");
        assert_eq!(item.kind, None);
        assert!(item.quantity.is_none());

        // section 2
        let section = sections.get(1).unwrap();
        assert_eq!(section.name, "section 2");
        assert_eq!(section.items.len(), 1);
        let item = section.items.get(0).unwrap();
        assert_eq!(item.name, "name");
        assert_eq!(item.kind, None);
        assert!(item.quantity.is_none());
    }

    // instructions
    assert!(matches!(recipe.instructions, List::Sectioned(_)));
    if let List::Sectioned(sections) = recipe.instructions {
        assert_eq!(sections.len(), 1);

        // section 1
        let section = sections.get(0).unwrap();
        assert_eq!(section.name, "section 1");
        assert_eq!(section.items.len(), 2);
        assert_eq!(section.items.get(0).unwrap(), "instruction 1");
        assert_eq!(section.items.get(1).unwrap(), "instruction 2");
    }
}

#[test]
fn test_parse_empty() {
    assert!(Recipe::parse_from("").is_err());
}

#[test]
fn test_parse_missing() {
    assert!(Recipe::parse_from("").is_err());
    assert!(Recipe::parse_from("title\n\nYield: 1\n\nIngredients\nNothing").is_err());
}

#[test]
fn title_block_must_be_one_line() {
    let text = "title\nsecond line\n\nYield: 1\n\nIngredients\n- a\n\nInstructions\n- b\n";
    assert!(Recipe::parse_from(text).is_err());
}

#[test]
fn parse_all_continues_past_a_corrupt_recipe() {
    // One good and one corrupt document: the batch returns the good
    // recipe, reports one failure, and does not abort.
    let good = "title\n\nYield: 2\n\nIngredients\n- water\n\nInstructions\n- boil\n";
    let bad = "broken\n\nno yield here\n";
    let texts: Vec<String> = vec![good.to_string(), bad.to_string()];
    let (recipes, failures) = Recipe::parse_all(&texts);
    assert_eq!(recipes.len(), 1);
    assert_eq!(failures, 1);
    assert_eq!(recipes[0].title, "title");
    assert_eq!(recipes[0].metadata.yields.value, 2);
}
