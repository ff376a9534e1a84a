//! What the companion program knows of the game: its save files, where it is
//! installed, and which save files are watched.

use crate::saves::{fact, pack_bools, units_for, Packed};
use crate::text::str_eq;
use vstd::prelude::*;

verus! {

/// One fact of a save file.
#[derive(Debug, Clone, Copy, PartialEq, Eq, Structural)]
pub struct SaveFact {
    /// Place of the fact in the order of discovery; negative while it is unknown.
    pub reveal_order: i32,
}

impl SaveFact {
    /// Whether the fact is known.
    pub open spec fn spec_is_learned(self) -> bool {
        self.reveal_order >= 0
    }

    /// Whether the fact is known.
    pub fn is_learned(&self) -> (learned: bool)
        ensures
            learned == self.spec_is_learned(),
    {
        self.reveal_order >= 0
    }
}

/// A save file of the game: its facts by name, in the order of their names.
#[derive(Debug, PartialEq, Eq)]
pub struct SaveFile {
    pub fact_saves: Vec<(String, SaveFact)>,
}

impl SaveFile {
    /// For each fact, in order, whether it is known.
    pub open spec fn spec_learned(self) -> Seq<bool> {
        Seq::new(self.fact_saves@.len(), |i: int| self.fact_saves@[i].1.spec_is_learned())
    }

    /// For each fact, in order, whether it is known.
    pub fn learned_as_bools(&self) -> (learned: Vec<bool>)
        ensures
            learned@ == self.spec_learned(),
    {
        let mut learned: Vec<bool> = Vec::new();
        let mut i: usize = 0;
        while i < self.fact_saves.len()
            invariant
                i <= self.fact_saves@.len(),
                learned@ == self.spec_learned().subrange(0, i as int),
            decreases self.fact_saves@.len() - i,
        {
            learned.push(self.fact_saves[i].1.is_learned());
            proof {
                assert(learned@ =~= self.spec_learned().subrange(0, i + 1));
            }
            i = i + 1;
        }
        proof {
            assert(self.spec_learned().subrange(0, i as int) =~= self.spec_learned());
        }
        learned
    }
}

/// The packed form of a save that was read: one bit for each fact, set where
/// the fact is known.
pub fn read_save_packed(save: &SaveFile) -> (packed: Vec<Packed>)
    ensures
        packed@.len() == units_for(save.fact_saves@.len() as int),
        forall|k: int|
            0 <= k < 8 * packed@.len() ==> #[trigger] fact(packed@, k) == (k
                < save.fact_saves@.len() && save.fact_saves@[k].1.spec_is_learned()),
{
    let bools = save.learned_as_bools();
    pack_bools(bools.as_slice())
}

/// Where the game was bought, which decides where its saves lie.
#[derive(Debug, Clone, Copy, PartialEq, Eq, Structural)]
pub enum InstallType {
    Steam,
    EpicGames,
}

impl InstallType {
    /// The name of the store as it is shown.
    pub open spec fn spec_name(self) -> Seq<char> {
        match self {
            InstallType::Steam => "Steam"@,
            InstallType::EpicGames => "Epic Games"@,
        }
    }

    /// The name of the store as it is shown.
    pub fn name(self) -> (name: &'static str)
        ensures
            name@ == self.spec_name(),
    {
        match self {
            InstallType::Steam => "Steam",
            InstallType::EpicGames => "Epic Games",
        }
    }
}

/// Why no installation of the game was found.
#[derive(Debug, Clone, Copy, PartialEq, Eq, Structural)]
pub enum DetectError {
    /// The user has no home folder.
    NoHome,
    /// No folder of the game lies where one is looked for.
    NotFound,
}

/// What is to be done with the save file of a profile.
#[derive(Debug, Clone, Copy, PartialEq, Eq, Structural)]
pub enum WatchActionKind {
    Watch,
    Unwatch,
}

/// A request to the file watcher, for the save file of one profile.
#[derive(Debug, PartialEq, Eq)]
pub struct WatchAction {
    pub kind: WatchActionKind,
    pub name: String,
}

impl WatchAction {
    /// The request to watch the save file of profile `name`.
    pub fn watch(name: &str) -> (action: Self)
        ensures
            action.kind == WatchActionKind::Watch,
            action.name@ == name@,
    {
        WatchAction { kind: WatchActionKind::Watch, name: name.to_owned() }
    }

    /// The request to stop watching the save file of profile `name`.
    pub fn unwatch(name: &str) -> (action: Self)
        ensures
            action.kind == WatchActionKind::Unwatch,
            action.name@ == name@,
    {
        WatchAction { kind: WatchActionKind::Unwatch, name: name.to_owned() }
    }
}

/// Milliseconds within which a second change of one save file is passed over.
pub const DEBOUNCE_MS: u64 = 1000;

/// Whether the change of the save file of profile `name` is passed over:
/// the change before it was of the same profile and was sent less than
/// `DEBOUNCE_MS` milliseconds ago.
pub fn is_debounced(last_name: &str, name: &str, since_send_ms: u64) -> (debounced: bool)
    ensures
        debounced == (last_name@ == name@ && since_send_ms < DEBOUNCE_MS),
{
    str_eq(last_name, name) && since_send_ms < DEBOUNCE_MS
}

} // verus!
