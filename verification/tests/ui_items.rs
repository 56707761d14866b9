use circuit_levels::ui::{
    ButtonEvent, ElementType, LevelItem, LevelPackItem, LoadLevelEvent, LoadLevelPackEvent,
};

fn text_of(cell: &ElementType) -> &str {
    match cell {
        ElementType::Text(s) => s.as_str(),
        ElementType::Button(_, _) => panic!("expected a text cell"),
    }
}

#[test]
fn pack_list_title_row() {
    let cells = LevelPackItem::new_title().cells();
    assert_eq!(cells.len(), 4);
    assert_eq!(text_of(&cells[0]), "Name");
    assert_eq!(text_of(&cells[1]), "Progress");
    assert_eq!(text_of(&cells[2]), "Rating");
    assert_eq!(text_of(&cells[3]), "Click to load");
}

#[test]
fn level_row_carries_its_load_event() {
    let cells = LevelItem::new("lab", true, 4).cells();
    assert_eq!(cells.len(), 3);
    assert_eq!(text_of(&cells[0]), "lab");
    assert_eq!(text_of(&cells[1]), "true");
    match &cells[2] {
        ElementType::Button(ButtonEvent::Level(ev), label) => {
            assert_eq!(ev.id, 4);
            assert_eq!(label.as_str(), "Load Level");
        }
        _ => panic!("expected the load button"),
    }
}

#[test]
fn button_events_carry_their_targets() {
    match ButtonEvent::new_level_pack("packs/intro") {
        ButtonEvent::LevelPack(ev) => assert_eq!(ev.dir, "packs/intro"),
        _ => panic!("expected a pack event"),
    }
    match ButtonEvent::new_level(2) {
        ButtonEvent::Level(ev) => assert_eq!(ev.id, 2),
        _ => panic!("expected a level event"),
    }
    assert_eq!(LoadLevelPackEvent::new("p").dir, "p");
    assert_eq!(LoadLevelEvent::new(9).id, 9);
}
