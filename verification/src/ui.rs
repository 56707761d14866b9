//! UI data: the events the menu emits and the rows of the level-pack and
//! level selection lists. Widget trees and styling are the host's concern.

use vstd::prelude::*;

verus! {

/// A request to load the level pack in the given directory.
pub struct LoadLevelPackEvent {
    pub dir: String,
}

impl LoadLevelPackEvent {
    pub fn new(dir: &str) -> (r: LoadLevelPackEvent)
        ensures
            r.dir@ == dir@,
    {
        LoadLevelPackEvent { dir: dir.to_owned() }
    }
}

/// A request to load the level with the given index in the active pack.
pub struct LoadLevelEvent {
    pub id: usize,
}

impl LoadLevelEvent {
    pub fn new(id: usize) -> (r: LoadLevelEvent)
        ensures
            r.id == id,
    {
        LoadLevelEvent { id }
    }
}

/// The event a menu button emits when clicked.
pub enum ButtonEvent {
    LevelPack(LoadLevelPackEvent),
    Level(LoadLevelEvent),
}

impl ButtonEvent {
    pub fn new_level_pack(level_pack_dir: &str) -> (r: ButtonEvent)
        ensures
            r matches ButtonEvent::LevelPack(ev) && ev.dir@ == level_pack_dir@,
    {
        ButtonEvent::LevelPack(LoadLevelPackEvent::new(level_pack_dir))
    }

    pub fn new_level(id: usize) -> (r: ButtonEvent)
        ensures
            r matches ButtonEvent::Level(ev) && ev.id == id,
    {
        ButtonEvent::Level(LoadLevelEvent::new(id))
    }
}

/// One cell of a selection-list row: plain text, or a labelled button that
/// emits an event.
pub enum ElementType {
    Text(String),
    Button(ButtonEvent, String),
}

/// One row of the level-pack list: the pack's name, progress and rating, and
/// a button that loads it.
pub struct LevelPackItem {
    name: ElementType,
    progress: ElementType,
    rating: ElementType,
    load_level_pack: ElementType,
}

impl LevelPackItem {
    /// The four cells of the row, left to right.
    pub closed spec fn spec_cells(&self) -> Seq<ElementType> {
        seq![self.name, self.progress, self.rating, self.load_level_pack]
    }

    /// The header row above the level-pack list.
    pub fn new_title() -> (r: LevelPackItem)
        ensures
            r.spec_cells().len() == 4,
            r.spec_cells()[0] matches ElementType::Text(s) && s@ == "Name"@,
            r.spec_cells()[1] matches ElementType::Text(s) && s@ == "Progress"@,
            r.spec_cells()[2] matches ElementType::Text(s) && s@ == "Rating"@,
            r.spec_cells()[3] matches ElementType::Text(s) && s@ == "Click to load"@,
    {
        LevelPackItem {
            name: ElementType::Text("Name".to_owned()),
            progress: ElementType::Text("Progress".to_owned()),
            rating: ElementType::Text("Rating".to_owned()),
            load_level_pack: ElementType::Text("Click to load".to_owned()),
        }
    }

    /// The row's cells, for the host to lay out.
    pub fn cells(self) -> (r: Vec<ElementType>)
        ensures
            r@ == self.spec_cells(),
    {
        let mut v: Vec<ElementType> = Vec::new();
        v.push(self.name);
        v.push(self.progress);
        v.push(self.rating);
        v.push(self.load_level_pack);
        proof {
            assert(v@ =~= self.spec_cells());
        }
        v
    }
}

/// One row of the level list: the level's name, whether it was completed,
/// and a button that loads it.
pub struct LevelItem {
    name: ElementType,
    complete: ElementType,
    load_level: ElementType,
}

impl LevelItem {
    /// The three cells of the row, left to right.
    pub closed spec fn spec_cells(&self) -> Seq<ElementType> {
        seq![self.name, self.complete, self.load_level]
    }

    pub fn new(name: &str, complete: bool, level_id: usize) -> (r: LevelItem)
        ensures
            r.spec_cells().len() == 3,
            r.spec_cells()[0] matches ElementType::Text(s) && s@ == name@,
            r.spec_cells()[1] matches ElementType::Text(s) && s@ == (if complete {
                "true"@
            } else {
                "false"@
            }),
            r.spec_cells()[2] matches ElementType::Button(ev, label) && label@ == "Load Level"@
                && (ev matches ButtonEvent::Level(e) && e.id == level_id),
    {
        let complete_text = if complete {
            "true"
        } else {
            "false"
        };
        LevelItem {
            name: ElementType::Text(name.to_owned()),
            complete: ElementType::Text(complete_text.to_owned()),
            load_level: ElementType::Button(
                ButtonEvent::new_level(level_id),
                "Load Level".to_owned(),
            ),
        }
    }

    /// The row's cells, for the host to lay out.
    pub fn cells(self) -> (r: Vec<ElementType>)
        ensures
            r@ == self.spec_cells(),
    {
        let mut v: Vec<ElementType> = Vec::new();
        v.push(self.name);
        v.push(self.complete);
        v.push(self.load_level);
        proof {
            assert(v@ =~= self.spec_cells());
        }
        v
    }
}

} // verus!
