use egui::Id;
use std::collections::HashMap;
use vstd::prelude::*;

verus! {

/// The value of egui's `Id::new(title)`, the key under which a tile with
/// this title is filed. The id is a hash of the title that is never zero;
/// which hash it is depends on how `ahash` was built for the machine, so no
/// more is stated.
#[verifier::external_body]
fn title_id(title: &String) -> (id: u64)
    ensures
        id != 0,
{
    Id::new(title).value()
}

/// Collects tiles by title: each one a title and its content. A tile added
/// under the id of an earlier one replaces it.
pub struct TileBuilder<C> {
    tiles: HashMap<u64, (String, C)>,
}

impl<C> View for TileBuilder<C> {
    type V = Map<u64, (String, C)>;

    closed spec fn view(&self) -> Map<u64, (String, C)> {
        self.tiles@
    }
}

impl<C> TileBuilder<C> {
    /// A builder with no tiles.
    pub fn new() -> (b: Self)
        ensures
            b@ == Map::<u64, (String, C)>::empty(),
    {
        TileBuilder { tiles: HashMap::new() }
    }

    /// Files `content` under the id of `title`, replacing what was filed there.
    pub fn add(&mut self, title: String, content: C)
        ensures
            exists|id: u64| id != 0 && final(self)@ == old(self)@.insert(id, (title, content)),
    {
        broadcast use vstd::std_specs::hash::group_hash_axioms;

        let id = title_id(&title);
        self.file_under(id, title, content);
    }

    /// Files `content` with its title under `id`, replacing what was filed
    /// there.
    pub fn file_under(&mut self, id: u64, title: String, content: C)
        ensures
            final(self)@ == old(self)@.insert(id, (title, content)),
    {
        broadcast use vstd::std_specs::hash::group_hash_axioms;

        self.tiles.insert(id, (title, content));
    }

    /// The number of tiles filed.
    pub fn len(&self) -> (n: usize)
        ensures
            n == self@.len(),
    {
        broadcast use vstd::std_specs::hash::group_hash_axioms;

        self.tiles.len()
    }
}

} // verus!
