//! The diagnostic core: privacy rules (`redact`), what is read of the host and
//! its USB tree (`collect`, `inventory`), the bundle (`bundle`), and the run
//! (`support`). Nothing here changes the system; every missing file or failed
//! probe becomes a [`Note`] and the bundle continues.

pub mod laws;
pub mod attrs;
pub mod bundle;
pub mod collect;
pub mod files;
pub mod inventory;
pub mod redact;
pub mod summary;
pub mod support;
pub mod usbmon;
pub mod utc;

use vstd::prelude::*;

verus! {

/// One "unavailable: reason" record. The manifest lists every one, so a
/// reporter and a maintainer both know what a bundle lacks.
#[derive(Debug)]
pub struct Note {
    pub item: String,
    pub reason: String,
}

/// What a `Note` says.
pub struct NoteFacts {
    pub item: Seq<char>,
    pub reason: Seq<char>,
}

impl View for Note {
    type V = NoteFacts;

    open spec fn view(&self) -> NoteFacts {
        NoteFacts { item: self.item@, reason: self.reason@ }
    }
}

/// What several notes say.
pub open spec fn notes(v: Seq<Note>) -> Seq<NoteFacts> {
    v.map_values(|n: Note| n@)
}

/// A note about an item and why it is not there.
pub fn note(item: &str, reason: &str) -> (r: Note)
    ensures
        r@ == (NoteFacts { item: item@, reason: reason@ }),
{
    Note { item: item.to_owned(), reason: reason.to_owned() }
}

} // verus!
