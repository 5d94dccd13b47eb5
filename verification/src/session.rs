//! Session synchronization between host windows and the record store.
//!
//! A window's identifier is the note's id.  The host opens and closes the
//! windows; the decisions — what to persist for a newly opened window, and
//! which windows to open at startup — live here, so that the visible window
//! set always matches the live-record set.

use vstd::prelude::*;

use crate::sticker::is_color_hex;
use crate::sticker::Sticker;
use crate::store::spec_find;
use crate::store::Store;
use crate::store::StoreError;

verus! {

/// Relies on `uuid::Uuid::new_v4` and its display form: a freshly drawn
/// random id rendered as 36 characters in the hyphenated format.  Nothing is
/// assumed beyond the length.
#[verifier::external_body]
fn fresh_uuid() -> (r: String)
    ensures
        r@.len() == 36,
{
    uuid::Uuid::new_v4().to_string()
}

/// Allocates a fresh id for a note about to be created; the id doubles as
/// the label of the window the host will open for it.
pub fn allocate_note_id() -> (id: String)
    ensures
        id@.len() == 36,
{
    fresh_uuid()
}

/// Persists a new note for a window the host has just opened, with the
/// geometry the host reports back (the host may clamp the requested one).
/// Fails with `ConstraintViolation` when the id is already taken, and then
/// leaves the store unchanged.
pub fn register_note(
    store: &mut Store,
    id: &str,
    pos_x: i32,
    pos_y: i32,
    height: u32,
    width: u32,
) -> (r: Result<Sticker, StoreError>)
    requires
        old(store).wf(),
    ensures
        final(store).wf(),
        spec_find(old(store)@, id@) >= 0 ==> r == Err::<Sticker, StoreError>(
            StoreError::ConstraintViolation,
        ) && final(store)@ == old(store)@,
        spec_find(old(store)@, id@) == -1 ==> (r matches Ok(s) && s@.uuid == id@
            && s@.markdown.len() == 0 && is_color_hex(s@.color) && s@.pos_x == pos_x as int
            && s@.pos_y == pos_y as int && s@.height == height as int && s@.width == width as int
            && s@.pinned == false && s@.archived == false && (exists|i: int|
            0 <= i <= old(store)@.len() && final(store)@ == old(store)@.insert(i, s@))),
{
    let sticker = Sticker::new(id, pos_x, pos_y, height, width);
    let copy = sticker.clone();
    match store.create(copy) {
        Ok(()) => Ok(sticker),
        Err(e) => Err(e),
    }
}

/// What startup reconciliation asks of the host.
pub enum StartupAction {
    /// No record is live: create exactly one fresh note.
    CreateNew,
    /// Re-open one window per live record, in the given order, each at its
    /// stored position and size and with its stored pin state.
    Reopen(Vec<Sticker>),
}

/// Decides startup reconciliation from the live records: with none, exactly
/// one new note is created; otherwise exactly one window per live record is
/// re-opened and none is created.
pub fn plan_startup(live: Vec<Sticker>) -> (a: StartupAction)
    ensures
        live@.len() == 0 ==> a == StartupAction::CreateNew,
        live@.len() > 0 ==> a == StartupAction::Reopen(live),
{
    if live.len() == 0 {
        StartupAction::CreateNew
    } else {
        StartupAction::Reopen(live)
    }
}

} // verus!
