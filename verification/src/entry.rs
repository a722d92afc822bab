use vstd::prelude::*;
use crate::geometry::{AABB, Vec2};

verus! {

/// An entry stored in a spatial index.
#[derive(Debug)]
pub struct SpatialEntry {
    pub id: u64,
    pub pos: Vec2,
    pub bounds: AABB,
    pub data: String,
}

/// What an entry holds, its text taken as characters.
pub struct EntryView {
    pub id: u64,
    pub pos: Vec2,
    pub bounds: AABB,
    pub data: Seq<char>,
}

impl View for SpatialEntry {
    type V = EntryView;

    open spec fn view(&self) -> EntryView {
        EntryView { id: self.id, pos: self.pos, bounds: self.bounds, data: self.data@ }
    }
}

/// The views of a sequence of entries.
pub open spec fn entry_views(s: Seq<SpatialEntry>) -> Seq<EntryView> {
    s.map_values(|e: SpatialEntry| e@)
}

/// The views of a sequence of borrowed entries.
pub open spec fn ref_views(s: Seq<&SpatialEntry>) -> Seq<EntryView> {
    s.map_values(|e: &SpatialEntry| e@)
}

impl Clone for SpatialEntry {
    fn clone(&self) -> (e: Self)
        ensures
            e@ == self@,
    {
        SpatialEntry { id: self.id, pos: self.pos, bounds: self.bounds, data: self.data.clone() }
    }
}

} // verus!
