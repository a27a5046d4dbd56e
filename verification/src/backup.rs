//! Backup file naming, discovery, listing and retention.
//!
//! Daily backups are named `flashpad-backup-YYYY-MM-DD.db`, so a second
//! backup on the same day overwrites the first; safety backups taken before
//! an import are named `flashpad-preimport-<timestamp>.db` and are never
//! pruned. Reading directories and copying databases is left to the
//! application; this module decides names, order and what to delete.
use crate::foreign::{
    clock_text, clock_valid, compact_stamp_text, date_text, has_verbatim_prefix,
    is_plain_component, joined, local_now_formatted, no_separator, parse_date, parse_outcome,
    path_join, shows_some_time, CalendarDate, ClockTime,
};
use crate::order::{is_stable_order, key_views, seq_less, stable_order};
use crate::text::{
    chars_of, copy_range, decimal, decimal_string, ends_with_chars, has_prefix, has_suffix,
    push_str, starts_with_chars, string_of,
};
use vstd::prelude::*;

verus! {

pub const BACKUP_PREFIX: &'static str = "flashpad-backup-";

pub const SAFETY_PREFIX: &'static str = "flashpad-preimport-";

pub const BACKUP_SUFFIX: &'static str = ".db";

pub const DATE_FORMAT: &'static str = "%Y-%m-%d";

pub const SAFETY_STAMP_FORMAT: &'static str = "%Y-%m-%dT%H%M%S";

/// A backup file shown in Settings.
#[derive(Debug)]
pub struct BackupInfo {
    pub path: String,
    pub filename: String,
    pub size_bytes: u64,
}

/// A file found in a backups directory.
#[derive(Debug)]
pub struct DirEntry {
    pub file_name: String,
    pub path: String,
    pub size_bytes: u64,
}

/// A daily backup with the date its name carries.
#[derive(Debug)]
pub struct DatedBackup {
    pub date: String,
    pub file_name: String,
    pub path: String,
}

pub struct EntryView {
    pub file_name: Seq<char>,
    pub path: Seq<char>,
    pub size_bytes: u64,
}

pub struct DatedView {
    pub date: Seq<char>,
    pub file_name: Seq<char>,
    pub path: Seq<char>,
}

impl View for DirEntry {
    type V = EntryView;

    open spec fn view(&self) -> EntryView {
        EntryView { file_name: self.file_name@, path: self.path@, size_bytes: self.size_bytes }
    }
}

impl View for DatedBackup {
    type V = DatedView;

    open spec fn view(&self) -> DatedView {
        DatedView { date: self.date@, file_name: self.file_name@, path: self.path@ }
    }
}

impl View for BackupInfo {
    type V = EntryView;

    open spec fn view(&self) -> EntryView {
        EntryView { file_name: self.filename@, path: self.path@, size_bytes: self.size_bytes }
    }
}

impl DatedBackup {
    /// A field-by-field copy.
    pub fn duplicate(&self) -> (r: DatedBackup)
        ensures
            r@ == self@,
    {
        DatedBackup {
            date: self.date.clone(),
            file_name: self.file_name.clone(),
            path: self.path.clone(),
        }
    }
}

pub open spec fn entry_views(v: Seq<DirEntry>) -> Seq<EntryView> {
    v.map_values(|e: DirEntry| e@)
}

pub open spec fn dated_views(v: Seq<DatedBackup>) -> Seq<DatedView> {
    v.map_values(|e: DatedBackup| e@)
}

pub open spec fn info_views(v: Seq<BackupInfo>) -> Seq<EntryView> {
    v.map_values(|e: BackupInfo| e@)
}

// ---------------------------------------------------------------------------
// Names
// ---------------------------------------------------------------------------

/// The file name of the daily backup for `date`.
pub open spec fn daily_name(date: Seq<char>) -> Seq<char> {
    BACKUP_PREFIX@ + date + BACKUP_SUFFIX@
}

/// The file name of the safety backup taken at `stamp`.
pub open spec fn safety_name(stamp: Seq<char>) -> Seq<char> {
    SAFETY_PREFIX@ + stamp + BACKUP_SUFFIX@
}

/// The date a daily backup's file name carries, if `name` is one.
pub open spec fn backup_date(name: Seq<char>) -> Option<Seq<char>> {
    let p = BACKUP_PREFIX@.len();
    if has_prefix(name, BACKUP_PREFIX@) && has_suffix(name.skip(p as int), BACKUP_SUFFIX@) {
        Some(name.subrange(p as int, name.len() - BACKUP_SUFFIX@.len()))
    } else {
        None
    }
}

/// `name` is a daily or a safety backup's file name.
pub open spec fn is_backup_name(name: Seq<char>) -> bool {
    has_prefix(name, BACKUP_PREFIX@) || has_prefix(name, SAFETY_PREFIX@)
}

/// The file name of the daily backup for `date`.
pub fn daily_backup_name(date: &str) -> (r: String)
    ensures
        r@ == daily_name(date@),
{
    let mut v = chars_of(BACKUP_PREFIX);
    push_str(&mut v, date);
    push_str(&mut v, BACKUP_SUFFIX);
    string_of(&v)
}

/// The file name of the safety backup taken at `stamp`.
pub fn safety_backup_name(stamp: &str) -> (r: String)
    ensures
        r@ == safety_name(stamp@),
{
    let mut v = chars_of(SAFETY_PREFIX);
    push_str(&mut v, stamp);
    push_str(&mut v, BACKUP_SUFFIX);
    string_of(&v)
}

/// The file name of today's daily backup (the date from the clock).
pub fn todays_backup_name() -> (r: String)
    ensures
        exists|t: ClockTime| clock_valid(t) && r@ == daily_name(date_text(t)),
{
    let date = local_now_formatted(DATE_FORMAT);
    proof {
        reveal_strlit("%Y-%m-%d");
        reveal_strlit("%Y-%m-%dT%H:%M:%S");
    }
    assert(DATE_FORMAT@ == "%Y-%m-%d"@);
    assert(DATE_FORMAT@.len() != "%Y-%m-%dT%H:%M:%S"@.len());
    assert(shows_some_time(DATE_FORMAT@, date@));
    let ghost t = choose|t: ClockTime| clock_valid(t) && date@ == clock_text(DATE_FORMAT@, t);
    assert(date@ == date_text(t));
    daily_backup_name(date.as_str())
}

/// The file name of a safety backup taken now (the time from the clock).
pub fn safety_backup_name_now() -> (r: String)
    ensures
        exists|t: ClockTime| clock_valid(t) && r@ == safety_name(compact_stamp_text(t)),
{
    let stamp = local_now_formatted(SAFETY_STAMP_FORMAT);
    proof {
        reveal_strlit("%Y-%m-%d");
        reveal_strlit("%Y-%m-%dT%H:%M:%S");
        reveal_strlit("%Y-%m-%dT%H%M%S");
    }
    assert(SAFETY_STAMP_FORMAT@ == "%Y-%m-%dT%H%M%S"@);
    assert(SAFETY_STAMP_FORMAT@.len() != "%Y-%m-%dT%H:%M:%S"@.len());
    assert(SAFETY_STAMP_FORMAT@.len() != "%Y-%m-%d"@.len());
    assert(shows_some_time(SAFETY_STAMP_FORMAT@, stamp@));
    let ghost t = choose|t: ClockTime|
        clock_valid(t) && stamp@ == clock_text(SAFETY_STAMP_FORMAT@, t);
    assert(stamp@ == compact_stamp_text(t));
    safety_backup_name(stamp.as_str())
}

/// The date a daily backup's file name carries, if `name` is one.
pub fn backup_date_of(name: &str) -> (r: Option<String>)
    ensures
        match r {
            Some(d) => backup_date(name@) == Some(d@),
            None => backup_date(name@) is None,
        },
{
    let n = chars_of(name);
    let p = chars_of(BACKUP_PREFIX);
    let sfx = chars_of(BACKUP_SUFFIX);
    if !starts_with_chars(&n, &p) {
        return None;
    }
    let rest = copy_range(&n, p.len(), n.len());
    assert(rest@ =~= name@.skip(p.len() as int));
    if !ends_with_chars(&rest, &sfx) {
        return None;
    }
    let d = copy_range(&n, p.len(), n.len() - sfx.len());
    Some(string_of(&d))
}

/// Whether `name` is a daily or a safety backup's file name.
pub fn is_backup_file_name(name: &str) -> (r: bool)
    ensures
        r == is_backup_name(name@),
{
    let n = chars_of(name);
    let p = chars_of(BACKUP_PREFIX);
    let q = chars_of(SAFETY_PREFIX);
    starts_with_chars(&n, &p) || starts_with_chars(&n, &q)
}

/// Decimal renderings contain only digits, so they are plain path components.
proof fn lemma_decimal_plain(n: nat)
    ensures
        is_plain_component(decimal(n)),
        forall|i: int| 0 <= i < decimal(n).len() ==> '0' <= #[trigger] decimal(n)[i] <= '9',
    decreases n,
{
    if n >= 10 {
        lemma_decimal_plain(n / 10);
    }
    let d = decimal(n);
    lemma_digits_no_separator(d);
}

proof fn lemma_digits_no_separator(s: Seq<char>)
    requires
        forall|i: int| 0 <= i < s.len() ==> '0' <= #[trigger] s[i] <= '9',
    ensures
        no_separator(s),
    decreases s.len(),
{
    if s.len() > 0 {
        assert forall|i: int| 0 <= i < s.drop_first().len() implies '0' <= #[trigger] s.drop_first()[i]
            <= '9' by {
            assert(s.drop_first()[i] == s[i + 1]);
        }
        lemma_digits_no_separator(s.drop_first());
    }
}

/// Where the backups of database `database_id` are kept: `backups/<id>`
/// inside `app_data_dir`. The `backups` folder path is claimed whenever
/// the data directory has no verbatim prefix, the whole path whenever that
/// folder path has none either (so always when the data directory is at
/// least four chars long).
pub fn backups_dir(app_data_dir: &str, database_id: u32) -> (r: String)
    ensures
        !has_verbatim_prefix(app_data_dir@) ==> exists|mid: Seq<char>|
            joined(app_data_dir@, "backups"@, mid) && (!has_verbatim_prefix(mid) ==> joined(
                mid,
                decimal(database_id as nat),
                r@,
            )),
        !has_verbatim_prefix(app_data_dir@) && app_data_dir@.len() >= 4 ==> exists|mid: Seq<char>|
            joined(app_data_dir@, "backups"@, mid) && joined(mid, decimal(database_id as nat), r@),
{
    proof {
        reveal_strlit("backups");
        reveal_with_fuel(no_separator, 8);
        lemma_decimal_plain(database_id as nat);
    }
    let mid = path_join(app_data_dir, "backups");
    let id = decimal_string(database_id);
    proof {
        if !has_verbatim_prefix(app_data_dir@) && app_data_dir@.len() >= 4 {
            assert(mid@.take(4) =~= app_data_dir@.take(4));
        }
    }
    path_join(mid.as_str(), id.as_str())
}

// ---------------------------------------------------------------------------
// Discovery and listing
// ---------------------------------------------------------------------------

/// The daily backups among `entries`, with their dates, in directory order.
pub open spec fn dated_of(entries: Seq<EntryView>) -> Seq<DatedView>
    decreases entries.len(),
{
    if entries.len() == 0 {
        Seq::empty()
    } else {
        let rest = dated_of(entries.drop_last());
        let e = entries.last();
        match backup_date(e.file_name) {
            Some(d) => rest.push(DatedView { date: d, file_name: e.file_name, path: e.path }),
            None => rest,
        }
    }
}

/// The backups (daily and safety) among `entries`, in directory order.
pub open spec fn listed_of(entries: Seq<EntryView>) -> Seq<EntryView>
    decreases entries.len(),
{
    if entries.len() == 0 {
        Seq::empty()
    } else {
        let rest = listed_of(entries.drop_last());
        if is_backup_name(entries.last().file_name) {
            rest.push(entries.last())
        } else {
            rest
        }
    }
}

/// The dates of dated backups.
pub open spec fn dates_of(v: Seq<DatedView>) -> Seq<Seq<char>> {
    v.map_values(|d: DatedView| d.date)
}

/// The file names of listed files.
pub open spec fn names_of(v: Seq<EntryView>) -> Seq<Seq<char>> {
    v.map_values(|d: EntryView| d.file_name)
}

/// The daily backups among `entries`, sorted oldest first (by the date in
/// their names; entries with equal dates keep their directory order).
/// Other files, safety backups among them, are left out.
pub fn dated_backups(entries: &Vec<DirEntry>) -> (r: Vec<DatedBackup>)
    ensures
        exists|order: Seq<usize>|
            {
                &&& is_stable_order(dates_of(dated_of(entry_views(entries@))), order, false)
                &&& r.len() == order.len()
                &&& forall|k: int|
                    0 <= k < r.len() ==> #[trigger] r@[k]@ == dated_of(
                        entry_views(entries@),
                    )[order[k] as int]
            },
{
    let ghost ev = entry_views(entries@);
    let mut found: Vec<DatedBackup> = Vec::new();
    let mut keys: Vec<Vec<char>> = Vec::new();
    let mut i: usize = 0;
    while i < entries.len()
        invariant
            i <= entries.len(),
            ev == entry_views(entries@),
            dated_views(found@) == dated_of(ev.take(i as int)),
            key_views(keys@) == dates_of(dated_views(found@)),
        decreases entries.len() - i,
    {
        assert(ev.take(i + 1).drop_last() =~= ev.take(i as int));
        assert(ev.take(i + 1).last() == entries@[i as int]@);
        let e = &entries[i];
        match backup_date_of(e.file_name.as_str()) {
            Some(d) => {
                let k = chars_of(d.as_str());
                let b = DatedBackup { date: d, file_name: e.file_name.clone(), path: e.path.clone() };
                let ghost bv = b@;
                let ghost kv = k@;
                let ghost old_found = found@;
                let ghost old_keys = keys@;
                found.push(b);
                keys.push(k);
                assert(dated_views(found@) =~= dated_views(old_found).push(bv));
                assert(key_views(keys@) =~= key_views(old_keys).push(kv));
                assert(dates_of(dated_views(found@)) =~= dates_of(dated_views(old_found)).push(
                    bv.date,
                ));
            },
            None => {},
        }
        i += 1;
    }
    assert(ev.take(entries.len() as int) =~= ev);
    let order = stable_order(&keys, false);
    let mut out: Vec<DatedBackup> = Vec::new();
    let mut k: usize = 0;
    while k < order.len()
        invariant
            k <= order.len(),
            order.len() == found.len(),
            is_stable_order(key_views(keys@), order@, false),
            key_views(keys@) == dates_of(dated_views(found@)),
            dated_views(found@) == dated_of(ev),
            out.len() == k,
            forall|j: int| 0 <= j < k ==> #[trigger] out@[j]@ == dated_of(ev)[order@[j] as int],
        decreases order.len() - k,
    {
        assert(order@[k as int] < keys.len());
        let c = found[order[k]].duplicate();
        out.push(c);
        k += 1;
    }
    out
}

/// All backups among `entries` (daily and safety), newest name first (by
/// file name, descending; equal names keep their directory order), for
/// display in Settings. Other files are left out.
pub fn list_backup_files(entries: &Vec<DirEntry>) -> (r: Vec<BackupInfo>)
    ensures
        exists|order: Seq<usize>|
            {
                &&& is_stable_order(names_of(listed_of(entry_views(entries@))), order, true)
                &&& r.len() == order.len()
                &&& forall|k: int|
                    0 <= k < r.len() ==> #[trigger] r@[k]@ == listed_of(
                        entry_views(entries@),
                    )[order[k] as int]
            },
{
    let ghost ev = entry_views(entries@);
    let mut found: Vec<BackupInfo> = Vec::new();
    let mut keys: Vec<Vec<char>> = Vec::new();
    let mut i: usize = 0;
    while i < entries.len()
        invariant
            i <= entries.len(),
            ev == entry_views(entries@),
            info_views(found@) == listed_of(ev.take(i as int)),
            key_views(keys@) == names_of(info_views(found@)),
        decreases entries.len() - i,
    {
        assert(ev.take(i + 1).drop_last() =~= ev.take(i as int));
        assert(ev.take(i + 1).last() == entries@[i as int]@);
        let e = &entries[i];
        if is_backup_file_name(e.file_name.as_str()) {
            let k = chars_of(e.file_name.as_str());
            let b = BackupInfo {
                path: e.path.clone(),
                filename: e.file_name.clone(),
                size_bytes: e.size_bytes,
            };
            let ghost bv = b@;
            let ghost kv = k@;
            let ghost old_found = found@;
            let ghost old_keys = keys@;
            found.push(b);
            keys.push(k);
            assert(info_views(found@) =~= info_views(old_found).push(bv));
            assert(key_views(keys@) =~= key_views(old_keys).push(kv));
            assert(names_of(info_views(found@)) =~= names_of(info_views(old_found)).push(
                bv.file_name,
            ));
        }
        i += 1;
    }
    assert(ev.take(entries.len() as int) =~= ev);
    let order = stable_order(&keys, true);
    let mut out: Vec<BackupInfo> = Vec::new();
    let mut k: usize = 0;
    while k < order.len()
        invariant
            k <= order.len(),
            order.len() == found.len(),
            is_stable_order(key_views(keys@), order@, true),
            key_views(keys@) == names_of(info_views(found@)),
            info_views(found@) == listed_of(ev),
            out.len() == k,
            forall|j: int| 0 <= j < k ==> #[trigger] out@[j]@ == listed_of(ev)[order@[j] as int],
        decreases order.len() - k,
    {
        assert(order@[k as int] < keys.len());
        let f = &found[order[k]];
        let c = BackupInfo {
            path: f.path.clone(),
            filename: f.filename.clone(),
            size_bytes: f.size_bytes,
        };
        out.push(c);
        k += 1;
    }
    out
}

// ---------------------------------------------------------------------------
// Retention and the latest backup
// ---------------------------------------------------------------------------

/// How many of `n` sorted daily backups retention deletes when keeping `keep`.
pub open spec fn prune_count(n: nat, keep: nat) -> nat {
    if n <= keep {
        0
    } else {
        (n - keep) as nat
    }
}

/// The daily backups to delete so that only the newest `keep` remain:
/// the oldest ones of the sorted list, beyond `keep`.
pub fn backups_to_prune(dated: &Vec<DatedBackup>, keep: u32) -> (r: Vec<DatedBackup>)
    ensures
        dated_views(r@) == dated_views(dated@).take(
            prune_count(dated.len() as nat, keep as nat) as int,
        ),
{
    let n: usize = if dated.len() <= keep as usize {
        0
    } else {
        dated.len() - keep as usize
    };
    let mut out: Vec<DatedBackup> = Vec::new();
    let mut i: usize = 0;
    while i < n
        invariant
            i <= n <= dated.len(),
            n == prune_count(dated.len() as nat, keep as nat),
            dated_views(out@) == dated_views(dated@).take(i as int),
        decreases n - i,
    {
        let c = dated[i].duplicate();
        let ghost cv = c@;
        let ghost old_out = out@;
        out.push(c);
        assert(dated_views(out@) =~= dated_views(old_out).push(cv));
        assert(dated_views(out@) =~= dated_views(dated@).take(i + 1));
        i += 1;
    }
    out
}

/// The date of the newest daily backup in a sorted list: the last one's
/// date, as `chrono` reads `YYYY-MM-DD`; `None` when there is none or its
/// date does not parse.
pub fn last_backup_at(dated: &Vec<DatedBackup>) -> (r: Option<CalendarDate>)
    ensures
        dated.len() == 0 ==> r is None,
        dated.len() > 0 ==> r == parse_outcome(dated@.last().date@, DATE_FORMAT@),
{
    if dated.len() == 0 {
        None
    } else {
        parse_date(dated[dated.len() - 1].date.as_str(), DATE_FORMAT)
    }
}

} // verus!

verus! {

// ---------------------------------------------------------------------------
// Laws
// ---------------------------------------------------------------------------

/// A daily backup's name gives back the date it was made from, so a second
/// backup on the same date lands on the same file.
pub proof fn law_daily_name_round_trip(date: Seq<char>)
    ensures
        backup_date(daily_name(date)) == Some(date),
        is_backup_name(daily_name(date)),
{
    let n = daily_name(date);
    let p = BACKUP_PREFIX@.len();
    assert(n.take(p as int) =~= BACKUP_PREFIX@);
    assert(n.skip(p as int) =~= date + BACKUP_SUFFIX@);
    let rest = n.skip(p as int);
    assert(rest.skip(rest.len() - BACKUP_SUFFIX@.len()) =~= BACKUP_SUFFIX@);
    assert(n.subrange(p as int, n.len() - BACKUP_SUFFIX@.len()) =~= date);
}

/// The two name families never overlap: no name starts with both prefixes.
pub proof fn lemma_prefixes_disjoint(name: Seq<char>)
    ensures
        !(has_prefix(name, BACKUP_PREFIX@) && has_prefix(name, SAFETY_PREFIX@)),
{
    reveal_strlit("flashpad-backup-");
    reveal_strlit("flashpad-preimport-");
    if has_prefix(name, BACKUP_PREFIX@) && has_prefix(name, SAFETY_PREFIX@) {
        assert(name.take(16)[9] == BACKUP_PREFIX@[9]);
        assert(name.take(19)[9] == SAFETY_PREFIX@[9]);
    }
}

/// A safety backup's name never reads as a daily backup's, so retention
/// (which only looks at dated daily backups) never considers it; it is
/// still listed among the backups.
pub proof fn law_safety_name_is_not_dated(stamp: Seq<char>)
    ensures
        backup_date(safety_name(stamp)) is None,
        is_backup_name(safety_name(stamp)),
{
    let n = safety_name(stamp);
    assert(n.take(SAFETY_PREFIX@.len() as int) =~= SAFETY_PREFIX@);
    lemma_prefixes_disjoint(n);
}

/// Every dated backup found carries, in its name, the date recorded for it.
pub proof fn lemma_dated_of(entries: Seq<EntryView>)
    ensures
        forall|k: int|
            0 <= k < dated_of(entries).len() ==> backup_date(
                #[trigger] dated_of(entries)[k].file_name,
            ) == Some(dated_of(entries)[k].date),
    decreases entries.len(),
{
    if entries.len() > 0 {
        lemma_dated_of(entries.drop_last());
    }
}

/// A stable ascending order never puts a later key before an earlier one.
pub proof fn lemma_stable_order_sorted(keys: Seq<Seq<char>>, order: Seq<usize>)
    requires
        is_stable_order(keys, order, false),
    ensures
        forall|a: int, b: int|
            0 <= a < b < order.len() ==> !seq_less(
                #[trigger] keys[order[b] as int],
                #[trigger] keys[order[a] as int],
            ),
{
    assert forall|a: int, b: int| 0 <= a < b < order.len() implies !seq_less(
        #[trigger] keys[order[b] as int],
        #[trigger] keys[order[a] as int],
    ) by {
        assert(crate::order::key_before(keys, order[a] as int, order[b] as int, false));
        crate::order::lemma_less_total(keys[order[a] as int], keys[order[b] as int]);
    }
}

/// Retention on the sorted daily backups found in a directory: it deletes
/// exactly the oldest ones beyond `keep`, `keep` of them (or all, if fewer)
/// remain, none deleted is newer than any kept, and none deleted is a
/// safety backup.
pub proof fn law_prune_keeps_newest(
    entries: Seq<EntryView>,
    order: Seq<usize>,
    sorted: Seq<DatedView>,
    keep: nat,
)
    requires
        is_stable_order(dates_of(dated_of(entries)), order, false),
        sorted.len() == order.len(),
        forall|k: int| 0 <= k < sorted.len() ==> #[trigger] sorted[k] == dated_of(entries)[order[k] as int],
    ensures
        ({
            let c = prune_count(sorted.len(), keep) as int;
            &&& sorted.len() - c == (if sorted.len() <= keep { sorted.len() } else { keep })
            &&& forall|a: int, b: int|
                0 <= a < c <= b < sorted.len() ==> !seq_less(
                    #[trigger] sorted[b].date,
                    #[trigger] sorted[a].date,
                )
            &&& forall|a: int|
                0 <= a < c ==> !has_prefix(#[trigger] sorted[a].file_name, SAFETY_PREFIX@)
        }),
{
    let keys = dates_of(dated_of(entries));
    lemma_stable_order_sorted(keys, order);
    lemma_dated_of(entries);
    let c = prune_count(sorted.len(), keep) as int;
    assert forall|a: int, b: int| 0 <= a < c <= b < sorted.len() implies !seq_less(
        #[trigger] sorted[b].date,
        #[trigger] sorted[a].date,
    ) by {
        assert(keys[order[a] as int] == sorted[a].date);
        assert(keys[order[b] as int] == sorted[b].date);
    }
    assert forall|a: int| 0 <= a < c implies !has_prefix(
        #[trigger] sorted[a].file_name,
        SAFETY_PREFIX@,
    ) by {
        let k = order[a] as int;
        assert(backup_date(dated_of(entries)[k].file_name) is Some);
        lemma_prefixes_disjoint(sorted[a].file_name);
    }
}

} // verus!
