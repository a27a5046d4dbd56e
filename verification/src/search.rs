//! Searching across the registered databases other than the active one.
use crate::notes::Note;
use crate::profiles::{
    profile_views, without_id, AppConfig, DatabaseProfile,
};
use vstd::prelude::*;

verus! {

/// A note found in another database, with that database's id and name.
#[derive(Debug)]
pub struct CrossDatabaseNote {
    pub database_id: u32,
    pub database_name: String,
    pub note: Note,
}

/// The databases a cross-database search opens: every registered one
/// except the active one (whose notes the front end already holds), in
/// registration order.
pub fn databases_to_search(config: &AppConfig) -> (r: Vec<DatabaseProfile>)
    ensures
        profile_views(r@) == without_id(config@.databases, config@.active_database_id),
{
    let ghost dbs = config@.databases;
    let active = config.active_database_id;
    let mut out: Vec<DatabaseProfile> = Vec::new();
    let mut i: usize = 0;
    while i < config.databases.len()
        invariant
            i <= config.databases.len(),
            dbs == profile_views(config.databases@),
            active == config@.active_database_id,
            profile_views(out@) == without_id(dbs.take(i as int), active),
        decreases config.databases.len() - i,
    {
        assert(dbs.take(i + 1).drop_last() =~= dbs.take(i as int));
        if config.databases[i].id != active {
            let c = config.databases[i].duplicate();
            let ghost cv = c@;
            let ghost before = out@;
            out.push(c);
            assert(profile_views(out@) =~= profile_views(before).push(cv));
        }
        i += 1;
    }
    assert(dbs.take(dbs.len() as int) =~= dbs);
    out
}

/// The notes of `profile`'s database, each labelled with its id and name.
pub fn label_notes(profile: &DatabaseProfile, notes: Vec<Note>) -> (r: Vec<CrossDatabaseNote>)
    ensures
        r.len() == notes.len(),
        forall|k: int|
            0 <= k < r.len() ==> (#[trigger] r@[k]).database_id == profile.id && r@[k].database_name@
                == profile.name@ && r@[k].note == notes@[k],
{
    let mut out: Vec<CrossDatabaseNote> = Vec::new();
    let mut rest = notes;
    let ghost all = rest@;
    while rest.len() > 0
        invariant
            out.len() + rest.len() == all.len(),
            rest@ == all.skip(out.len() as int),
            forall|k: int|
                0 <= k < out.len() ==> (#[trigger] out@[k]).database_id == profile.id
                    && out@[k].database_name@ == profile.name@ && out@[k].note == all[k],
        decreases rest.len(),
    {
        let note = rest.remove(0);
        let k = out.len();
        assert(note == all[k as int]);
        out.push(CrossDatabaseNote {
            database_id: profile.id,
            database_name: profile.name.clone(),
            note,
        });
        assert(rest@ =~= all.skip(out.len() as int));
    }
    out
}

} // verus!
