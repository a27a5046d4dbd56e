//! The app-level configuration: the registered databases ("profiles"),
//! which one is active, and the backup settings, with the operations that
//! edit it and the laws those operations keep.
use crate::db::DbStatus;
use crate::foreign::{
    clock_valid, has_verbatim_prefix, is_plain_component, joined, no_separator, local_now_formatted, timestamp_text, ClockTime, path_join, to_lowercase, unicode_lowercase,
};
use crate::text::{
    chars_of, contains_seq, contains_str, decimal, push_decimal, push_str, string_of,
};
use vstd::prelude::*;

verus! {

pub const CONFIG_FILE: &'static str = "flashpad.config.json";

pub const DEFAULT_DB_FILENAME: &'static str = "flashpad.sqlite3";

pub const DEFAULT_RETENTION_COUNT: u32 = 7;

pub const TIMESTAMP_FORMAT: &'static str = "%Y-%m-%dT%H:%M:%S";

/// One registered database.
#[derive(Debug)]
pub struct DatabaseProfile {
    pub id: u32,
    pub name: String,
    pub path: String,
    pub created_at: String,
}

/// A profile as plain values.
pub struct ProfileView {
    pub id: u32,
    pub name: Seq<char>,
    pub path: Seq<char>,
    pub created_at: Seq<char>,
}

impl View for DatabaseProfile {
    type V = ProfileView;

    open spec fn view(&self) -> ProfileView {
        ProfileView {
            id: self.id,
            name: self.name@,
            path: self.path@,
            created_at: self.created_at@,
        }
    }
}

impl DatabaseProfile {
    /// A field-by-field copy.
    pub fn duplicate(&self) -> (r: DatabaseProfile)
        ensures
            r@ == self@,
    {
        DatabaseProfile {
            id: self.id,
            name: self.name.clone(),
            path: self.path.clone(),
            created_at: self.created_at.clone(),
        }
    }
}

/// How many daily backups are kept per database.
#[derive(Clone, Copy, Debug, PartialEq, Eq, Structural)]
pub struct BackupSettings {
    pub retention_count: u32,
}

impl Default for BackupSettings {
    fn default() -> (r: BackupSettings)
        ensures
            r.retention_count == DEFAULT_RETENTION_COUNT,
    {
        BackupSettings { retention_count: DEFAULT_RETENTION_COUNT }
    }
}

/// The whole app configuration.
#[derive(Debug)]
pub struct AppConfig {
    pub version: u32,
    pub next_id: u32,
    pub active_database_id: u32,
    pub databases: Vec<DatabaseProfile>,
    pub backup: BackupSettings,
}

/// The configuration as plain values.
pub struct ConfigView {
    pub version: u32,
    pub next_id: u32,
    pub active_database_id: u32,
    pub databases: Seq<ProfileView>,
    pub retention_count: u32,
}

/// The views of a sequence of profiles.
pub open spec fn profile_views(v: Seq<DatabaseProfile>) -> Seq<ProfileView> {
    v.map_values(|p: DatabaseProfile| p@)
}

impl View for AppConfig {
    type V = ConfigView;

    open spec fn view(&self) -> ConfigView {
        ConfigView {
            version: self.version,
            next_id: self.next_id,
            active_database_id: self.active_database_id,
            databases: profile_views(self.databases@),
            retention_count: self.backup.retention_count,
        }
    }
}

// ---------------------------------------------------------------------------
// The model
// ---------------------------------------------------------------------------

/// Some registered profile has `id`.
pub open spec fn has_id(dbs: Seq<ProfileView>, id: u32) -> bool {
    exists|i: int| 0 <= i < dbs.len() && #[trigger] dbs[i].id == id
}

/// `i` is the first position holding a profile with `id`.
pub open spec fn first_with_id(dbs: Seq<ProfileView>, id: u32, i: int) -> bool {
    &&& 0 <= i < dbs.len()
    &&& dbs[i].id == id
    &&& forall|j: int| 0 <= j < i ==> #[trigger] dbs[j].id != id
}

/// The first position holding a profile with `id`, or -1.
pub open spec fn first_index(dbs: Seq<ProfileView>, id: u32) -> int {
    if has_id(dbs, id) {
        choose|i: int| first_with_id(dbs, id, i)
    } else {
        -1
    }
}

/// The first profile with `id`, if any (what a lookup by id finds).
pub open spec fn lookup(dbs: Seq<ProfileView>, id: u32) -> Option<ProfileView> {
    if has_id(dbs, id) {
        Some(dbs[first_index(dbs, id)])
    } else {
        None
    }
}

/// The error text for an unknown id.
pub open spec fn no_database_message(id: u32) -> Seq<char> {
    "No database with id "@ + decimal(id as nat)
}

/// The profiles whose id is not `id`, in their order.
pub open spec fn without_id(dbs: Seq<ProfileView>, id: u32) -> Seq<ProfileView>
    decreases dbs.len(),
{
    if dbs.len() == 0 {
        dbs
    } else {
        let rest = without_id(dbs.drop_last(), id);
        if dbs.last().id == id {
            rest
        } else {
            rest.push(dbs.last())
        }
    }
}

/// `c` with the first profile carrying `id` given the name `name`.
pub open spec fn renamed(c: ConfigView, id: u32, name: Seq<char>) -> ConfigView {
    let k = first_index(c.databases, id);
    ConfigView { databases: c.databases.update(k, ProfileView { name: name, ..c.databases[k] }), ..c }
}

/// `c` with the first profile carrying `id` moved to `path`.
pub open spec fn repathed(c: ConfigView, id: u32, path: Seq<char>) -> ConfigView {
    let k = first_index(c.databases, id);
    ConfigView { databases: c.databases.update(k, ProfileView { path: path, ..c.databases[k] }), ..c }
}

/// `c` with `p` registered at the end and the next id moved on by one.
pub open spec fn added(c: ConfigView, p: ProfileView) -> ConfigView {
    ConfigView { next_id: (c.next_id + 1) as u32, databases: c.databases.push(p), ..c }
}

/// `c` with `id` active.
pub open spec fn activated(c: ConfigView, id: u32) -> ConfigView {
    ConfigView { active_database_id: id, ..c }
}

/// `c` with every profile carrying `id` unregistered.
pub open spec fn removed(c: ConfigView, id: u32) -> ConfigView {
    ConfigView { databases: without_id(c.databases, id), ..c }
}

/// No two registered profiles share an id.
pub open spec fn unique_ids(dbs: Seq<ProfileView>) -> bool {
    forall|i: int, j: int|
        0 <= i < dbs.len() && 0 <= j < dbs.len() && i != j ==> #[trigger] dbs[i].id
            != #[trigger] dbs[j].id
}

/// Ids are unique, all below `next_id`, and the active id is registered:
/// the shape every configuration this library builds has.
pub open spec fn well_formed(c: ConfigView) -> bool {
    &&& unique_ids(c.databases)
    &&& forall|i: int| 0 <= i < c.databases.len() ==> #[trigger] c.databases[i].id < c.next_id
    &&& has_id(c.databases, c.active_database_id)
}

// ---------------------------------------------------------------------------
// Lemmas about the model
// ---------------------------------------------------------------------------

/// The first position with an id is unique, and `first_index` names it.
pub proof fn lemma_first_index(dbs: Seq<ProfileView>, id: u32, i: int)
    requires
        first_with_id(dbs, id, i),
    ensures
        first_index(dbs, id) == i,
        has_id(dbs, id),
{
    assert(dbs[i].id == id);
    let k = choose|k: int| first_with_id(dbs, id, k);
    assert(first_with_id(dbs, id, k));
    if k < i {
        assert(dbs[k].id != id);
    } else if i < k {
        assert(dbs[i].id != id);
    }
}

/// A profile with `id` at position `w` means some position is the first one.
proof fn lemma_first_upto(dbs: Seq<ProfileView>, id: u32, w: int)
    requires
        0 <= w < dbs.len(),
        dbs[w].id == id,
    ensures
        exists|i: int| first_with_id(dbs, id, i),
    decreases w,
{
    if forall|j: int| 0 <= j < w ==> #[trigger] dbs[j].id != id {
        assert(first_with_id(dbs, id, w));
    } else {
        let j = choose|j: int| 0 <= j < w && #[trigger] dbs[j].id == id;
        lemma_first_upto(dbs, id, j);
    }
}

/// A registered id has a first position.
pub proof fn lemma_has_first(dbs: Seq<ProfileView>, id: u32)
    requires
        has_id(dbs, id),
    ensures
        first_with_id(dbs, id, first_index(dbs, id)),
{
    let w = choose|w: int| 0 <= w < dbs.len() && #[trigger] dbs[w].id == id;
    lemma_first_upto(dbs, id, w);
    let i = choose|i: int| first_with_id(dbs, id, i);
    lemma_first_index(dbs, id, i);
}

/// Facts about `without_id`: it keeps exactly the profiles with another id,
/// in order, and it is the identity when no profile has `id`.
pub proof fn lemma_without_id(dbs: Seq<ProfileView>, id: u32)
    ensures
        without_id(dbs, id).len() <= dbs.len(),
        forall|i: int|
            0 <= i < without_id(dbs, id).len() ==> #[trigger] without_id(dbs, id)[i].id != id,
        forall|i: int|
            0 <= i < dbs.len() && dbs[i].id != id ==> without_id(dbs, id).contains(
                #[trigger] dbs[i],
            ),
        forall|x: ProfileView| #[trigger] without_id(dbs, id).contains(x) ==> dbs.contains(x),
        !has_id(dbs, id) ==> without_id(dbs, id) == dbs,
        has_id(dbs, id) ==> without_id(dbs, id).len() < dbs.len(),
    decreases dbs.len(),
{
    if dbs.len() > 0 {
        let init = dbs.drop_last();
        lemma_without_id(init, id);
        let rest = without_id(init, id);
        assert forall|i: int| 0 <= i < dbs.len() && dbs[i].id != id implies without_id(
            dbs,
            id,
        ).contains(#[trigger] dbs[i]) by {
            if i < dbs.len() - 1 {
                assert(init[i] == dbs[i]);
                let k = choose|k: int| 0 <= k < rest.len() && rest[k] == init[i];
                if dbs.last().id != id {
                    assert(rest.push(dbs.last())[k] == dbs[i]);
                }
            } else {
                assert(rest.push(dbs.last())[rest.len() as int] == dbs[i]);
            }
        }
        assert forall|x: ProfileView| #[trigger] without_id(dbs, id).contains(x) implies dbs.contains(
            x,
        ) by {
            let k = choose|k: int| 0 <= k < without_id(dbs, id).len() && without_id(dbs, id)[k] == x;
            if k < rest.len() {
                assert(rest[k] == x);
                assert(rest.contains(x));
                let m = choose|m: int| 0 <= m < init.len() && init[m] == x;
                assert(dbs[m] == x);
            } else {
                assert(dbs[dbs.len() - 1] == x);
            }
        }
        if !has_id(dbs, id) {
            assert forall|i: int| 0 <= i < init.len() implies #[trigger] init[i].id != id by {
                assert(dbs[i] == init[i]);
            }
            assert(!has_id(init, id));
            assert(dbs.last().id != id) by {
                assert(dbs[dbs.len() - 1].id != id);
            }
            assert(init.push(dbs.last()) =~= dbs);
        } else {
            if dbs.last().id != id {
                let w = choose|w: int| 0 <= w < dbs.len() && #[trigger] dbs[w].id == id;
                assert(w < dbs.len() - 1);
                assert(init[w].id == id);
                assert(has_id(init, id));
            }
        }
    }
}

// ---------------------------------------------------------------------------
// Operations
// ---------------------------------------------------------------------------

/// The position of the first profile with `id`.
fn index_of_id(dbs: &Vec<DatabaseProfile>, id: u32) -> (r: Option<usize>)
    ensures
        match r {
            Some(i) => first_with_id(profile_views(dbs@), id, i as int) && first_index(
                profile_views(dbs@),
                id,
            ) == i,
            None => !has_id(profile_views(dbs@), id) && first_index(profile_views(dbs@), id)
                == -1,
        },
{
    let ghost v = profile_views(dbs@);
    let mut i: usize = 0;
    while i < dbs.len()
        invariant
            i <= dbs.len(),
            v == profile_views(dbs@),
            forall|j: int| 0 <= j < i ==> #[trigger] v[j].id != id,
        decreases dbs.len() - i,
    {
        if dbs[i].id == id {
            proof {
                lemma_first_index(v, id, i as int);
            }
            return Some(i);
        }
        i += 1;
    }
    assert forall|j: int| 0 <= j < v.len() implies #[trigger] v[j].id != id by {}
    None
}

/// The error text for an unknown id.
fn no_database_error(id: u32) -> (r: String)
    ensures
        r@ == no_database_message(id),
{
    let mut v = chars_of("No database with id ");
    push_decimal(&mut v, id);
    string_of(&v)
}

/// The first registered profile with `id`, or an error naming the id.
pub fn find_database(config: &AppConfig, id: u32) -> (r: Result<&DatabaseProfile, String>)
    ensures
        match r {
            Ok(p) => lookup(config@.databases, id) == Some(p@),
            Err(e) => lookup(config@.databases, id) is None && e@ == no_database_message(id),
        },
{
    match index_of_id(&config.databases, id) {
        Some(i) => Ok(&config.databases[i]),
        None => Err(no_database_error(id)),
    }
}

/// The active profile, or an error naming the active id.
pub fn active_database(config: &AppConfig) -> (r: Result<&DatabaseProfile, String>)
    ensures
        match r {
            Ok(p) => lookup(config@.databases, config@.active_database_id) == Some(p@),
            Err(e) => lookup(config@.databases, config@.active_database_id) is None && e@
                == no_database_message(config@.active_database_id),
        },
{
    find_database(config, config.active_database_id)
}

/// `s` reads as a local date and time, `YYYY-MM-DDTHH:MM:SS`.
pub open spec fn is_local_timestamp(s: Seq<char>) -> bool {
    exists|t: ClockTime| clock_valid(t) && s == timestamp_text(t)
}

/// The current local time as `YYYY-MM-DDTHH:MM:SS`.
pub fn now_iso() -> (r: String)
    ensures
        exists|t: ClockTime| clock_valid(t) && r@ == timestamp_text(t),
{
    local_now_formatted(TIMESTAMP_FORMAT)
}

/// Registers a new profile under the next free id and returns it. The
/// creation time is the clock's current time.
pub fn add_database(config: &mut AppConfig, name: String, path: String) -> (r: DatabaseProfile)
    requires
        old(config).next_id < u32::MAX,
    ensures
        r.id == old(config).next_id,
        r.name@ == name@,
        r.path@ == path@,
        is_local_timestamp(r.created_at@),
        final(config)@ == added(old(config)@, r@),
{
    let profile = DatabaseProfile { id: config.next_id, name, path, created_at: now_iso() };
    config.next_id = config.next_id + 1;
    let copy = profile.duplicate();
    config.databases.push(copy);
    assert(profile_views(config.databases@) =~= profile_views(old(config).databases@).push(
        profile@,
    ));
    profile
}

/// Renames the first profile with `id`; an unknown id is an error and
/// changes nothing.
pub fn rename_database_entry(config: &mut AppConfig, id: u32, name: String) -> (r: Result<
    (),
    String,
>)
    ensures
        r is Ok <==> has_id(old(config)@.databases, id),
        r is Ok ==> final(config)@ == renamed(old(config)@, id, name@),
        r matches Err(e) ==> final(config)@ == old(config)@ && e@ == no_database_message(id),
{
    match index_of_id(&config.databases, id) {
        Some(i) => {
            let old_p = &config.databases[i];
            let p = DatabaseProfile {
                id: old_p.id,
                name,
                path: old_p.path.clone(),
                created_at: old_p.created_at.clone(),
            };
            config.databases.set(i, p);
            assert(profile_views(config.databases@) =~= renamed(old(config)@, id, name@).databases);
            Ok(())
        },
        None => Err(no_database_error(id)),
    }
}

/// Moves the first profile with `id` to `new_path`; an unknown id is an
/// error and changes nothing.
pub fn update_path_for(config: &mut AppConfig, id: u32, new_path: String) -> (r: Result<
    (),
    String,
>)
    ensures
        r is Ok <==> has_id(old(config)@.databases, id),
        r is Ok ==> final(config)@ == repathed(old(config)@, id, new_path@),
        r matches Err(e) ==> final(config)@ == old(config)@ && e@ == no_database_message(id),
{
    match index_of_id(&config.databases, id) {
        Some(i) => {
            let old_p = &config.databases[i];
            let p = DatabaseProfile {
                id: old_p.id,
                name: old_p.name.clone(),
                path: new_path,
                created_at: old_p.created_at.clone(),
            };
            config.databases.set(i, p);
            assert(profile_views(config.databases@) =~= repathed(
                old(config)@,
                id,
                new_path@,
            ).databases);
            Ok(())
        },
        None => Err(no_database_error(id)),
    }
}

/// Makes `id` the active profile; an unknown id is an error and changes
/// nothing.
pub fn set_active(config: &mut AppConfig, id: u32) -> (r: Result<(), String>)
    ensures
        r is Ok <==> has_id(old(config)@.databases, id),
        r is Ok ==> final(config)@ == activated(old(config)@, id),
        r matches Err(e) ==> final(config)@ == old(config)@ && e@ == no_database_message(id),
{
    match find_database(config, id) {
        Err(e) => Err(e),
        Ok(_) => {
            config.active_database_id = id;
            Ok(())
        },
    }
}

/// The refusal text for removing the only profile.
pub open spec fn only_remaining_message() -> Seq<char> {
    "Cannot remove the only remaining database"@
}

/// The refusal text for removing the active profile.
pub open spec fn active_removal_message() -> Seq<char> {
    "Cannot remove the currently active database - switch to another one first"@
}

/// Unregisters every profile with `id` (never touching any file). Refuses,
/// changing nothing, when at most one profile is registered, when `id` is
/// the active profile, or when no profile has `id`.
pub fn remove_database_entry(config: &mut AppConfig, id: u32) -> (r: Result<(), String>)
    ensures
        old(config).databases.len() <= 1 ==> (r matches Err(e) && e@ == only_remaining_message()),
        old(config).databases.len() > 1 && old(config).active_database_id == id ==> (r matches Err(
            e,
        ) && e@ == active_removal_message()),
        old(config).databases.len() > 1 && old(config).active_database_id != id && !has_id(
            old(config)@.databases,
            id,
        ) ==> (r matches Err(e) && e@ == no_database_message(id)),
        r is Ok <==> (old(config).databases.len() > 1 && old(config).active_database_id != id
            && has_id(old(config)@.databases, id)),
        r is Ok ==> final(config)@ == removed(old(config)@, id),
        r is Err ==> final(config)@ == old(config)@,
{
    if config.databases.len() <= 1 {
        return Err(String::from_str("Cannot remove the only remaining database"));
    }
    if config.active_database_id == id {
        return Err(
            String::from_str(
                "Cannot remove the currently active database - switch to another one first",
            ),
        );
    }
    let ghost dbs = config@.databases;
    let before = config.databases.len();
    let mut kept: Vec<DatabaseProfile> = Vec::new();
    let mut i: usize = 0;
    while i < config.databases.len()
        invariant
            i <= config.databases.len(),
            dbs == profile_views(config.databases@),
            profile_views(kept@) == without_id(dbs.take(i as int), id),
        decreases config.databases.len() - i,
    {
        assert(dbs.take(i + 1).drop_last() =~= dbs.take(i as int));
        if config.databases[i].id != id {
            let c = config.databases[i].duplicate();
            kept.push(c);
            assert(profile_views(kept@) =~= without_id(dbs.take(i as int), id).push(c@));
        }
        i += 1;
    }
    assert(dbs.take(dbs.len() as int) =~= dbs);
    proof {
        lemma_without_id(dbs, id);
    }
    if kept.len() == before {
        return Err(no_database_error(id));
    }
    config.databases = kept;
    Ok(())
}

/// Sets how many daily backups are kept.
pub fn set_retention_count(config: &mut AppConfig, retention_count: u32)
    ensures
        final(config)@ == (ConfigView { retention_count, ..old(config)@ }),
{
    config.backup.retention_count = retention_count;
}

/// Points the active id at the first registered profile when it names no
/// registered profile (a hand-edited configuration); otherwise, or when no
/// profile is registered, changes nothing.
pub fn repair_active_database(config: &mut AppConfig)
    ensures
        has_id(old(config)@.databases, old(config)@.active_database_id) ==> final(config)@
            == old(config)@,
        !has_id(old(config)@.databases, old(config)@.active_database_id)
            && old(config).databases.len() > 0 ==> final(config)@ == (ConfigView {
            active_database_id: old(config)@.databases[0].id,
            ..old(config)@
        }),
        old(config).databases.len() == 0 ==> final(config)@ == old(config)@,
{
    if active_database(config).is_err() {
        if config.databases.len() > 0 {
            config.active_database_id = config.databases[0].id;
        }
    } else {
        proof {
            if !has_id(old(config)@.databases, old(config)@.active_database_id) {
            }
        }
    }
}

/// The configuration a fresh install starts with: one profile named
/// "Default", id 1, active, at `flashpad.sqlite3` inside `app_data_dir`.
pub fn default_config(app_data_dir: &str) -> (r: AppConfig)
    ensures
        r.version == 1,
        r.next_id == 2,
        r.active_database_id == 1,
        r.databases.len() == 1,
        r.databases[0].id == 1,
        r.databases[0].name@ == "Default"@,
        is_local_timestamp(r.databases[0].created_at@),
        !has_verbatim_prefix(app_data_dir@) ==> joined(
            app_data_dir@,
            DEFAULT_DB_FILENAME@,
            r.databases[0].path@,
        ),
        r.backup.retention_count == DEFAULT_RETENTION_COUNT,
        well_formed(r@),
{
    proof {
        lemma_file_names_plain();
    }
    let profile = DatabaseProfile {
        id: 1,
        name: String::from_str("Default"),
        path: path_join(app_data_dir, DEFAULT_DB_FILENAME),
        created_at: now_iso(),
    };
    let mut databases: Vec<DatabaseProfile> = Vec::new();
    databases.push(profile);
    let r = AppConfig {
        version: 1,
        next_id: 2,
        active_database_id: 1,
        databases,
        backup: BackupSettings::default(),
    };
    assert(r@.databases[0].id == 1);
    r
}

/// The file names joined onto the app data directory are plain components.
proof fn lemma_file_names_plain()
    ensures
        is_plain_component(DEFAULT_DB_FILENAME@),
        is_plain_component(CONFIG_FILE@),
{
    reveal_strlit("flashpad.sqlite3");
    reveal_strlit("flashpad.config.json");
    reveal_with_fuel(no_separator, 21);
    assert(DEFAULT_DB_FILENAME@ == "flashpad.sqlite3"@);
    assert(CONFIG_FILE@ == "flashpad.config.json"@);
}

/// Where the configuration file lives inside `app_data_dir`.
pub fn config_path(app_data_dir: &str) -> (r: String)
    ensures
        !has_verbatim_prefix(app_data_dir@) ==> joined(app_data_dir@, CONFIG_FILE@, r@),
{
    proof {
        lemma_file_names_plain();
    }
    path_join(app_data_dir, CONFIG_FILE)
}

} // verus!

verus! {

// ---------------------------------------------------------------------------
// Laws of the configuration operations
// ---------------------------------------------------------------------------

/// With unique ids, looking up the id at position `i` finds that profile.
pub proof fn lemma_unique_lookup(dbs: Seq<ProfileView>, i: int)
    requires
        unique_ids(dbs),
        0 <= i < dbs.len(),
    ensures
        lookup(dbs, dbs[i].id) == Some(dbs[i]),
{
    assert forall|j: int| 0 <= j < i implies #[trigger] dbs[j].id != dbs[i].id by {}
    lemma_first_index(dbs, dbs[i].id, i);
}

/// Two sequences with the same id at every position agree on which ids
/// are registered and where each first occurs.
pub proof fn lemma_same_ids(a: Seq<ProfileView>, b: Seq<ProfileView>, id: u32)
    requires
        a.len() == b.len(),
        forall|k: int| 0 <= k < a.len() ==> #[trigger] a[k].id == b[k].id,
    ensures
        has_id(a, id) == has_id(b, id),
        first_index(a, id) == first_index(b, id),
{
    if has_id(a, id) {
        lemma_has_first(a, id);
        let k = first_index(a, id);
        assert(b[k].id == id);
        assert forall|j: int| 0 <= j < k implies #[trigger] b[j].id != id by {
            assert(a[j].id != id);
        }
        lemma_first_index(b, id, k);
    } else {
        assert forall|j: int| 0 <= j < b.len() implies #[trigger] b[j].id != id by {
            assert(a[j].id != id);
        }
    }
}

/// Replacing the first profile with `id` by one with the same id keeps
/// every lookup of another id, and the lookup of `id` finds the new one.
proof fn lemma_replace_first(dbs: Seq<ProfileView>, id: u32, v: ProfileView, other: u32)
    requires
        has_id(dbs, id),
        v.id == id,
    ensures
        lookup(dbs.update(first_index(dbs, id), v), id) == Some(v),
        other != id ==> lookup(dbs.update(first_index(dbs, id), v), other) == lookup(
            dbs,
            other,
        ),
        unique_ids(dbs) ==> unique_ids(dbs.update(first_index(dbs, id), v)),
{
    lemma_has_first(dbs, id);
    let k = first_index(dbs, id);
    let upd = dbs.update(k, v);
    assert forall|m: int| 0 <= m < dbs.len() implies #[trigger] upd[m].id == dbs[m].id by {}
    lemma_same_ids(dbs, upd, id);
    lemma_same_ids(dbs, upd, other);
    if other != id && has_id(dbs, other) {
        lemma_has_first(dbs, other);
        assert(first_index(dbs, other) != k);
    }
    if unique_ids(dbs) {
        assert forall|i: int, j: int|
            0 <= i < upd.len() && 0 <= j < upd.len() && i != j implies #[trigger] upd[i].id
            != #[trigger] upd[j].id by {
            assert(dbs[i].id != dbs[j].id);
        }
    }
}

/// Registering a profile under the next id keeps a well-formed
/// configuration well-formed, the new profile is then found by its id, and
/// every id registered before is found as before.
pub proof fn law_add_then_find(c: ConfigView, p: ProfileView, other: u32)
    requires
        well_formed(c),
        p.id == c.next_id,
        c.next_id < u32::MAX,
    ensures
        well_formed(added(c, p)),
        lookup(added(c, p).databases, p.id) == Some(p),
        other != p.id ==> lookup(added(c, p).databases, other) == lookup(c.databases, other),
{
    let d = added(c, p).databases;
    assert forall|i: int, j: int|
        0 <= i < d.len() && 0 <= j < d.len() && i != j implies #[trigger] d[i].id
        != #[trigger] d[j].id by {
        if i < c.databases.len() && j < c.databases.len() {
            assert(c.databases[i].id != c.databases[j].id);
        } else if i < c.databases.len() {
            assert(c.databases[i].id < c.next_id);
        } else {
            assert(c.databases[j].id < c.next_id);
        }
    }
    let w = choose|w: int| 0 <= w < c.databases.len() && #[trigger] c.databases[w].id
        == c.active_database_id;
    assert(d[w].id == c.active_database_id);
    lemma_unique_lookup(d, c.databases.len() as int);
    if other != p.id {
        if has_id(c.databases, other) {
            lemma_has_first(c.databases, other);
            let k = first_index(c.databases, other);
            assert forall|j: int| 0 <= j < k implies #[trigger] d[j].id != other by {
                assert(c.databases[j].id != other);
            }
            lemma_first_index(d, other, k);
        } else {
            assert forall|j: int| 0 <= j < d.len() implies #[trigger] d[j].id != other by {
                if j < c.databases.len() {
                    assert(c.databases[j].id != other);
                }
            }
        }
    }
}

/// Renaming a registered profile keeps a well-formed configuration
/// well-formed; the lookup of its id then finds it under the new name with
/// everything else unchanged, and every other lookup is unchanged.
pub proof fn law_rename_then_find(c: ConfigView, id: u32, name: Seq<char>, other: u32)
    requires
        has_id(c.databases, id),
    ensures
        lookup(renamed(c, id, name).databases, id) == Some(
            ProfileView { name: name, ..lookup(c.databases, id)->0 },
        ),
        other != id ==> lookup(renamed(c, id, name).databases, other) == lookup(
            c.databases,
            other,
        ),
        well_formed(c) ==> well_formed(renamed(c, id, name)),
{
    let k = first_index(c.databases, id);
    lemma_has_first(c.databases, id);
    let v = ProfileView { name: name, ..c.databases[k] };
    lemma_replace_first(c.databases, id, v, other);
    lemma_replace_first(c.databases, id, v, c.active_database_id);
    if well_formed(c) {
        let d = renamed(c, id, name).databases;
        assert forall|i: int| 0 <= i < d.len() implies #[trigger] d[i].id < c.next_id by {
            assert(c.databases[i].id < c.next_id);
        }
    }
}

/// Moving a registered profile to a new path keeps a well-formed
/// configuration well-formed; the lookup of its id then finds it at the new
/// path with everything else unchanged, and every other lookup is unchanged.
pub proof fn law_repath_then_find(c: ConfigView, id: u32, path: Seq<char>, other: u32)
    requires
        has_id(c.databases, id),
    ensures
        lookup(repathed(c, id, path).databases, id) == Some(
            ProfileView { path: path, ..lookup(c.databases, id)->0 },
        ),
        other != id ==> lookup(repathed(c, id, path).databases, other) == lookup(
            c.databases,
            other,
        ),
        well_formed(c) ==> well_formed(repathed(c, id, path)),
{
    let k = first_index(c.databases, id);
    lemma_has_first(c.databases, id);
    let v = ProfileView { path: path, ..c.databases[k] };
    lemma_replace_first(c.databases, id, v, other);
    lemma_replace_first(c.databases, id, v, c.active_database_id);
    if well_formed(c) {
        let d = repathed(c, id, path).databases;
        assert forall|i: int| 0 <= i < d.len() implies #[trigger] d[i].id < c.next_id by {
            assert(c.databases[i].id < c.next_id);
        }
    }
}

/// Making a registered profile active keeps a well-formed configuration
/// well-formed, and the active profile is then that profile.
pub proof fn law_set_active_then_active(c: ConfigView, id: u32)
    requires
        has_id(c.databases, id),
    ensures
        lookup(activated(c, id).databases, activated(c, id).active_database_id) == lookup(
            c.databases,
            id,
        ),
        lookup(c.databases, id) is Some,
        well_formed(c) ==> well_formed(activated(c, id)),
{
}

/// Unregistering profiles never leaves ids repeated.
proof fn lemma_without_id_unique(dbs: Seq<ProfileView>, id: u32)
    requires
        unique_ids(dbs),
    ensures
        unique_ids(without_id(dbs, id)),
    decreases dbs.len(),
{
    if dbs.len() > 0 {
        let init = dbs.drop_last();
        assert forall|i: int, j: int|
            0 <= i < init.len() && 0 <= j < init.len() && i != j implies #[trigger] init[i].id
            != #[trigger] init[j].id by {
            assert(dbs[i].id != dbs[j].id);
        }
        lemma_without_id_unique(init, id);
        lemma_without_id(init, id);
        let rest = without_id(init, id);
        if dbs.last().id != id {
            let d = rest.push(dbs.last());
            assert forall|i: int, j: int|
                0 <= i < d.len() && 0 <= j < d.len() && i != j implies #[trigger] d[i].id
                != #[trigger] d[j].id by {
                if i < rest.len() && j < rest.len() {
                } else {
                    let a = if i < rest.len() { i } else { j };
                    assert(rest.contains(rest[a]));
                    let m = choose|m: int| 0 <= m < init.len() && init[m] == rest[a];
                    assert(dbs[m].id != dbs[dbs.len() - 1].id);
                }
            }
        }
    }
}

/// A refused removal changes nothing; an accepted one, on a well-formed
/// configuration, leaves it well-formed with at least one profile (the
/// active one, still found), the removed id gone, and every other lookup
/// unchanged. This is what keeps the app from ever ending with no
/// usable profile.
pub proof fn law_remove_keeps_a_profile(c: ConfigView, id: u32, other: u32)
    requires
        well_formed(c),
        c.databases.len() > 1,
        c.active_database_id != id,
        has_id(c.databases, id),
    ensures
        well_formed(removed(c, id)),
        removed(c, id).databases.len() >= 1,
        lookup(removed(c, id).databases, id) is None,
        lookup(removed(c, id).databases, c.active_database_id) == lookup(
            c.databases,
            c.active_database_id,
        ),
        other != id ==> lookup(removed(c, id).databases, other) == lookup(c.databases, other),
{
    let d = without_id(c.databases, id);
    lemma_without_id(c.databases, id);
    lemma_without_id_unique(c.databases, id);
    assert forall|i: int| 0 <= i < d.len() implies #[trigger] d[i].id < c.next_id by {
        assert(d.contains(d[i]));
        let m = choose|m: int| 0 <= m < c.databases.len() && c.databases[m] == d[i];
        assert(c.databases[m].id < c.next_id);
    }
    assert(!has_id(d, id));
    if other != id {
        lemma_remove_lookup(c.databases, id, other);
    }
    lemma_remove_lookup(c.databases, id, c.active_database_id);
}

/// Lookups of ids other than the removed one are unchanged.
proof fn lemma_remove_lookup(dbs: Seq<ProfileView>, id: u32, other: u32)
    requires
        unique_ids(dbs),
        other != id,
    ensures
        lookup(without_id(dbs, id), other) == lookup(dbs, other),
{
    let d = without_id(dbs, id);
    lemma_without_id(dbs, id);
    lemma_without_id_unique(dbs, id);
    if has_id(dbs, other) {
        lemma_has_first(dbs, other);
        let k = first_index(dbs, other);
        assert(d.contains(dbs[k]));
        let m = choose|m: int| 0 <= m < d.len() && d[m] == dbs[k];
        lemma_unique_lookup(d, m);
        lemma_unique_lookup(dbs, k);
    } else {
        assert forall|j: int| 0 <= j < d.len() implies #[trigger] d[j].id != other by {
            assert(d.contains(d[j]));
            let m = choose|m: int| 0 <= m < dbs.len() && dbs[m] == d[j];
            assert(dbs[m].id != other);
        }
    }
}

/// After the start-up repair, a configuration with any profile at all has
/// an active profile that a lookup finds.
pub proof fn law_repair_gives_active(c: ConfigView, fixed: ConfigView)
    requires
        c.databases.len() > 0,
        has_id(c.databases, c.active_database_id) ==> fixed == c,
        !has_id(c.databases, c.active_database_id) ==> fixed == activated(
            c,
            c.databases[0].id,
        ),
    ensures
        lookup(fixed.databases, fixed.active_database_id) is Some,
{
    if !has_id(c.databases, c.active_database_id) {
        assert(c.databases[0].id == fixed.active_database_id);
    }
}

} // verus!

verus! {

// ---------------------------------------------------------------------------
// Sync-folder warning and the state shown to the user
// ---------------------------------------------------------------------------

/// The sync client named in an already lower-cased path, judged by its
/// substrings.
pub open spec fn provider_in_lowered(lower: Seq<char>) -> Option<Seq<char>> {
    if contains_seq(lower, "onedrive"@) {
        Some("OneDrive"@)
    } else if contains_seq(lower, "dropbox"@) {
        Some("Dropbox"@)
    } else if contains_seq(lower, "google drive"@) || contains_seq(lower, "googledrive"@) {
        Some("Google Drive"@)
    } else if contains_seq(lower, "icloud drive"@) {
        Some("iCloud Drive"@)
    } else {
        None
    }
}

/// Which sync client a path is reported under, by the folder names its
/// lower-cased text contains, wherever in the path (after `/`, `\\` or
/// anything else): OneDrive first, then Dropbox, then Google Drive (with or
/// without the space), then iCloud Drive; none of them gives no warning.
pub proof fn law_sync_provider_by_folder_name(path: Seq<char>)
    ensures
        ({
            let lower = unicode_lowercase(path);
            let onedrive = contains_seq(lower, "onedrive"@);
            let dropbox = contains_seq(lower, "dropbox"@);
            let google = contains_seq(lower, "google drive"@) || contains_seq(lower, "googledrive"@);
            let icloud = contains_seq(lower, "icloud drive"@);
            &&& onedrive ==> sync_provider(path) == Some("OneDrive"@)
            &&& !onedrive && dropbox ==> sync_provider(path) == Some("Dropbox"@)
            &&& !onedrive && !dropbox && google ==> sync_provider(path) == Some("Google Drive"@)
            &&& !onedrive && !dropbox && !google && icloud ==> sync_provider(path) == Some(
                "iCloud Drive"@,
            )
            &&& !onedrive && !dropbox && !google && !icloud ==> sync_provider(path) is None
            &&& onedrive ==> provider_in_lowered(lower) == Some("OneDrive"@)
            &&& !onedrive && dropbox ==> provider_in_lowered(lower) == Some("Dropbox"@)
        }),
{
}

/// The sync client whose folder `path` appears to be in, judged by
/// substrings of its lower-cased text.
pub open spec fn sync_provider(path: Seq<char>) -> Option<Seq<char>> {
    provider_in_lowered(unicode_lowercase(path))
}

/// The sync client named in `lower`, a path already lower-cased: the first
/// of OneDrive, Dropbox, Google Drive (with or without the space) and
/// iCloud Drive whose folder name occurs in it.
pub fn sync_provider_of_lowered(lower: &str) -> (r: Option<&'static str>)
    ensures
        match r {
            Some(s) => provider_in_lowered(lower@) == Some(s@),
            None => provider_in_lowered(lower@) is None,
        },
{
    let lower = chars_of(lower);
    if contains_str(&lower, "onedrive") {
        Some("OneDrive")
    } else if contains_str(&lower, "dropbox") {
        Some("Dropbox")
    } else if contains_str(&lower, "google drive") || contains_str(&lower, "googledrive") {
        Some("Google Drive")
    } else if contains_str(&lower, "icloud drive") {
        Some("iCloud Drive")
    } else {
        None
    }
}

/// A heuristic that only drives a warning banner: the name of the sync
/// client whose folder `path` seems to be in, if any.
pub fn looks_like_synced_folder(path: &str) -> (r: Option<&'static str>)
    ensures
        match r {
            Some(s) => sync_provider(path@) == Some(s@),
            None => sync_provider(path@) is None,
        },
{
    let lower_string = to_lowercase(path);
    sync_provider_of_lowered(lower_string.as_str())
}

/// The banner text for a database folder synced by `provider`.
pub open spec fn sync_warning_text(provider: Seq<char>) -> Seq<char> {
    "This database's folder appears to be synced by "@ + provider
        + ". FlashPad avoids WAL mode to reduce corruption risk, but avoid editing the same database from two devices at once."@
}

/// What the front end is told about the configuration and the active
/// database.
#[derive(Debug)]
pub struct AppStateDto {
    pub active_database_id: u32,
    pub databases: Vec<DatabaseProfile>,
    pub ready: bool,
    pub error: Option<String>,
    pub sync_warning: Option<String>,
    pub backup: BackupSettings,
}

/// A copy of a list of profiles.
pub fn copy_profiles(v: &Vec<DatabaseProfile>) -> (r: Vec<DatabaseProfile>)
    ensures
        profile_views(r@) == profile_views(v@),
{
    let mut out: Vec<DatabaseProfile> = Vec::new();
    let mut i: usize = 0;
    while i < v.len()
        invariant
            i <= v.len(),
            profile_views(out@) == profile_views(v@).take(i as int),
        decreases v.len() - i,
    {
        let p = v[i].duplicate();
        let ghost pv = p@;
        let ghost prev = out@;
        out.push(p);
        assert(profile_views(out@) =~= profile_views(prev).push(pv));
        assert(profile_views(out@) =~= profile_views(v@).take(i + 1));
        i += 1;
    }
    assert(profile_views(v@).take(v.len() as int) =~= profile_views(v@));
    out
}

/// The state shown to the front end: the configuration, whether the active
/// database is usable (with the reason when it is not), and a warning when
/// the active database's folder seems to be synced by a sync client.
pub fn build_app_state(config: &AppConfig, status: &DbStatus) -> (r: AppStateDto)
    ensures
        r.active_database_id == config.active_database_id,
        profile_views(r.databases@) == config@.databases,
        r.backup == config.backup,
        match status {
            DbStatus::Ready => r.ready && r.error is None,
            DbStatus::Unavailable(reason) => !r.ready && (r.error matches Some(e) && e@ == reason@),
        },
        match lookup(config@.databases, config@.active_database_id) {
            Some(p) => match sync_provider(p.path) {
                Some(name) => r.sync_warning matches Some(w) && w@ == sync_warning_text(name),
                None => r.sync_warning is None,
            },
            None => r.sync_warning is None,
        },
{
    let (ready, error) = match status {
        DbStatus::Ready => (true, None),
        DbStatus::Unavailable(reason) => (false, Some(reason.clone())),
    };
    let sync_warning = match active_database(config) {
        Ok(p) => match looks_like_synced_folder(p.path.as_str()) {
            Some(provider) => {
                let mut w = chars_of("This database's folder appears to be synced by ");
                push_str(&mut w, provider);
                push_str(
                    &mut w,
                    ". FlashPad avoids WAL mode to reduce corruption risk, but avoid editing the same database from two devices at once.",
                );
                Some(string_of(&w))
            },
            None => None,
        },
        Err(_) => None,
    };
    AppStateDto {
        active_database_id: config.active_database_id,
        databases: copy_profiles(&config.databases),
        ready,
        error,
        sync_warning,
        backup: config.backup,
    }
}

} // verus!
