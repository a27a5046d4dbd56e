//! Reading FlashNote autosave logs.
//!
//! FlashNote keeps each note as a log of timestamped snapshots appended to
//! one text file, separated by divider lines: a run of `=`/`-` (an undated
//! end-of-log marker), or such a run around a `M/D/YYYY H:MM:SS AM|PM`
//! timestamp. A note's current content is what follows the last divider;
//! when that last divider is an undated one with nothing after it, the
//! current content is the last non-blank segment before it.
use crate::foreign::{regex_is_match, regex_outcome};
use crate::text::{
    append_chars, chars_of, contains_char, crlf_to_lf, has_char, join_chars, join_with,
    lemma_crlf_round_trip, lemma_join_push, lemma_join_split, lf_to_crlf, normalize_line_endings, split_chars, split_on, string_of,
    trim, trim_chars, views_of,
};
use vstd::prelude::*;

verus! {

/// The regular expression of a divider line.
pub const DIVIDER_PATTERN: &'static str =
    "^[=\\-]{5,}(?: \\d{1,2}/\\d{1,2}/\\d{4} \\d{1,2}:\\d{2}:\\d{2} (?:AM|PM) [=\\-]{5,})?$";

/// `line` is a divider line.
pub open spec fn is_divider(line: Seq<char>) -> bool {
    regex_outcome(DIVIDER_PATTERN@, line) == Some(true)
}

/// The lines of `lines` grouped into the runs between divider lines (the
/// positions flagged in `divider`); divider lines belong to no group.
pub open spec fn line_groups(lines: Seq<Seq<char>>, divider: Seq<bool>) -> Seq<Seq<Seq<char>>>
    decreases lines.len(),
{
    if lines.len() == 0 {
        seq![Seq::empty()]
    } else {
        let n = lines.len() - 1;
        let prev = line_groups(lines.take(n), divider);
        if divider[n] {
            prev.push(Seq::empty())
        } else {
            prev.update(prev.len() - 1, prev.last().push(lines[n]))
        }
    }
}

/// Each group of lines joined back with newlines.
pub open spec fn segments(lines: Seq<Seq<char>>, divider: Seq<bool>) -> Seq<Seq<char>> {
    line_groups(lines, divider).map_values(|g: Seq<Seq<char>>| join_with(g, '\n'))
}

/// The position of the last `true` in `flags`, or -1.
pub open spec fn last_true(flags: Seq<bool>) -> int
    decreases flags.len(),
{
    if flags.len() == 0 {
        -1
    } else if flags.last() {
        flags.len() - 1
    } else {
        last_true(flags.drop_last())
    }
}

/// The last segment that is not blank, trimmed; empty when all are blank.
pub open spec fn last_nonblank(segs: Seq<Seq<char>>) -> Seq<char>
    decreases segs.len(),
{
    if segs.len() == 0 {
        Seq::empty()
    } else if trim(segs.last()).len() > 0 {
        trim(segs.last())
    } else {
        last_nonblank(segs.drop_last())
    }
}

/// The current content of a log already split into lines, with its divider
/// lines flagged: the whole text trimmed when there is no divider; else the
/// trimmed segment after the last divider, unless that is blank and the last
/// divider carries no timestamp (no `/`), in which case the last non-blank
/// segment before it.
pub open spec fn content_of_lines(lines: Seq<Seq<char>>, divider: Seq<bool>) -> Seq<char> {
    let d = last_true(divider);
    if d < 0 {
        trim(join_with(lines, '\n'))
    } else {
        let segs = segments(lines, divider);
        let last = trim(segs.last());
        if last.len() > 0 || contains_char(lines[d], '/') {
            last
        } else {
            last_nonblank(segs.drop_last())
        }
    }
}

/// The lines of a raw log, line endings normalised to `\n`.
pub open spec fn log_lines(raw: Seq<char>) -> Seq<Seq<char>> {
    split_on(crlf_to_lf(raw), '\n')
}

/// Which lines of a raw log are divider lines.
pub open spec fn divider_flags(raw: Seq<char>) -> Seq<bool> {
    Seq::new(log_lines(raw).len(), |i: int| is_divider(log_lines(raw)[i]))
}

/// The current content of a raw FlashNote log.
pub open spec fn current_content(raw: Seq<char>) -> Seq<char> {
    content_of_lines(log_lines(raw), divider_flags(raw))
}

// ---------------------------------------------------------------------------
// Lemmas
// ---------------------------------------------------------------------------

pub proof fn lemma_groups_nonempty(lines: Seq<Seq<char>>, divider: Seq<bool>)
    ensures
        line_groups(lines, divider).len() >= 1,
    decreases lines.len(),
{
    if lines.len() > 0 {
        lemma_groups_nonempty(lines.take(lines.len() - 1), divider);
    }
}

pub proof fn lemma_last_true(flags: Seq<bool>)
    ensures
        -1 <= last_true(flags) < flags.len(),
        last_true(flags) >= 0 ==> flags[last_true(flags)],
        forall|j: int| last_true(flags) < j < flags.len() ==> !flags[j],
    decreases flags.len(),
{
    if flags.len() > 0 && !flags.last() {
        let init = flags.drop_last();
        lemma_last_true(init);
        assert forall|j: int| last_true(flags) < j < flags.len() implies !flags[j] by {
            if j < flags.len() - 1 {
                assert(init[j] == flags[j]);
            }
        }
    }
}

// ---------------------------------------------------------------------------
// Executable functions
// ---------------------------------------------------------------------------

/// The position of the last flagged line.
fn last_flagged(flags: &Vec<bool>) -> (r: Option<usize>)
    ensures
        match r {
            Some(d) => last_true(flags@) == d,
            None => last_true(flags@) == -1,
        },
{
    let mut i = flags.len();
    assert(flags@.take(i as int) =~= flags@);
    while i > 0
        invariant
            i <= flags.len(),
            last_true(flags@) == last_true(flags@.take(i as int)),
        decreases i,
    {
        assert(flags@.take(i as int).drop_last() =~= flags@.take(i - 1));
        if flags[i - 1] {
            return Some(i - 1);
        }
        i -= 1;
    }
    None
}

/// The segments between divider lines, each joined with newlines.
fn split_segments(lines: &Vec<Vec<char>>, divider: &Vec<bool>) -> (r: Vec<Vec<char>>)
    requires
        lines.len() == divider.len(),
    ensures
        views_of(r@) == segments(views_of(lines@), divider@),
{
    let ghost lv = views_of(lines@);
    let mut done: Vec<Vec<char>> = Vec::new();
    let mut cur: Vec<char> = Vec::new();
    let mut cur_n: usize = 0;
    let mut i: usize = 0;
    proof {
        assert(lv.take(0) =~= Seq::<Seq<char>>::empty());
        assert(views_of(done@).push(cur@) =~= segments(lv.take(0), divider@));
    }
    while i < lines.len()
        invariant
            i <= lines.len() == divider.len(),
            lv == views_of(lines@),
            views_of(done@).push(cur@) == segments(lv.take(i as int), divider@),
            cur_n == line_groups(lv.take(i as int), divider@).last().len(),
            cur_n <= i,
        decreases lines.len() - i,
    {
        let ghost g = line_groups(lv.take(i as int), divider@);
        proof {
            lemma_groups_nonempty(lv.take(i as int), divider@);
            assert(lv.take(i + 1).take(i as int) =~= lv.take(i as int));
        }
        let ghost segs_before = segments(lv.take(i as int), divider@);
        assert(segs_before[g.len() - 1] == join_with(g.last(), '\n'));
        assert(segs_before.last() == cur@);
        if divider[i] {
            let piece = cur;
            let ghost pv = piece@;
            let ghost old_done = done@;
            done.push(piece);
            cur = Vec::new();
            cur_n = 0;
            assert(views_of(done@) =~= views_of(old_done).push(pv));
            assert(line_groups(lv.take(i + 1), divider@) == g.push(Seq::empty()));
            assert(views_of(done@).push(cur@) =~= segments(lv.take(i + 1), divider@));
        } else {
            let ghost before = cur@;
            if cur_n > 0 {
                cur.push('\n');
            }
            append_chars(&mut cur, &lines[i]);
            proof {
                let l = lv[i as int];
                assert(lines@[i as int]@ == l);
                let gl = g.last();
                if gl.len() > 0 {
                    lemma_join_push(gl, '\n', l);
                } else {
                    assert(gl.push(l) =~= seq![l]);
                    assert(before =~= Seq::<char>::empty());
                    assert(cur@ =~= l);
                }
                assert(join_with(gl.push(l), '\n') == cur@);
                let g2 = g.update(g.len() - 1, gl.push(l));
                assert(line_groups(lv.take(i + 1), divider@) == g2);
                let after = segments(lv.take(i + 1), divider@);
                let mine = views_of(done@).push(cur@);
                assert forall|k: int| 0 <= k < after.len() implies after[k] == mine[k] by {
                    if k < g.len() - 1 {
                        assert(after[k] == join_with(g2[k], '\n'));
                        assert(g2[k] == g[k]);
                        assert(segs_before[k] == join_with(g[k], '\n'));
                    }
                }
                assert(after =~= mine);
            }
            cur_n = cur_n + 1;
        }
        i += 1;
    }
    assert(lv.take(lines.len() as int) =~= lv);
    let last = cur;
    let ghost lastv = last@;
    done.push(last);
    assert(views_of(done@) =~= views_of(done@.drop_last()).push(lastv));
    done
}

/// The last non-blank segment among `segs[..n]`, trimmed.
fn last_nonblank_before(segs: &Vec<Vec<char>>, n: usize) -> (r: Vec<char>)
    requires
        n <= segs.len(),
    ensures
        r@ == last_nonblank(views_of(segs@).take(n as int)),
{
    let ghost sv = views_of(segs@);
    let mut k = n;
    while k > 0
        invariant
            k <= n <= segs.len(),
            sv == views_of(segs@),
            last_nonblank(sv.take(n as int)) == last_nonblank(sv.take(k as int)),
        decreases k,
    {
        let t = trim_chars(&segs[k - 1]);
        assert(sv.take(k as int).last() == segs@[k - 1]@);
        if t.len() > 0 {
            return t;
        }
        assert(sv.take(k as int).drop_last() =~= sv.take(k - 1));
        k -= 1;
    }
    assert(sv.take(0) =~= Seq::<Seq<char>>::empty());
    Vec::new()
}

/// The current content of a log split into lines, given which lines are
/// dividers (see `content_of_lines`).
pub fn content_from_lines(lines: &Vec<Vec<char>>, divider: &Vec<bool>) -> (r: Vec<char>)
    requires
        lines.len() == divider.len(),
    ensures
        r@ == content_of_lines(views_of(lines@), divider@),
{
    let ghost lv = views_of(lines@);
    match last_flagged(divider) {
        None => {
            let all = join_chars(lines, '\n');
            trim_chars(&all)
        },
        Some(d) => {
            let segs = split_segments(lines, divider);
            proof {
                lemma_groups_nonempty(lv, divider@);
                lemma_last_true(divider@);
            }
            let n = segs.len();
            assert(views_of(segs@).last() == segs@[n - 1]@);
            let last = trim_chars(&segs[n - 1]);
            if last.len() > 0 {
                return last;
            }
            assert(lines@[d as int]@ == lv[d as int]);
            if has_char(&lines[d], '/') {
                return last;
            }
            assert(views_of(segs@).drop_last() =~= views_of(segs@).take(n - 1));
            last_nonblank_before(&segs, n - 1)
        },
    }
}

/// The views of a vector of strings.
pub open spec fn string_views(v: Seq<String>) -> Seq<Seq<char>> {
    v.map_values(|s: String| s@)
}

/// The current content of a log split into lines, given which lines are
/// dividers, for callers holding the lines as strings.
pub fn select_current_content(lines: &Vec<String>, divider: &Vec<bool>) -> (r: String)
    requires
        lines.len() == divider.len(),
    ensures
        r@ == content_of_lines(string_views(lines@), divider@),
{
    let mut cs: Vec<Vec<char>> = Vec::new();
    let mut i: usize = 0;
    while i < lines.len()
        invariant
            i <= lines.len(),
            views_of(cs@) == string_views(lines@).take(i as int),
        decreases lines.len() - i,
    {
        let c = chars_of(lines[i].as_str());
        let ghost cv = c@;
        let ghost prev = cs@;
        cs.push(c);
        assert(views_of(cs@) =~= views_of(prev).push(cv));
        assert(views_of(cs@) =~= string_views(lines@).take(i + 1));
        i += 1;
    }
    assert(string_views(lines@).take(lines.len() as int) =~= string_views(lines@));
    let r = content_from_lines(&cs, divider);
    string_of(&r)
}

/// Whether `line` is a divider line.
pub fn is_divider_line(line: &Vec<char>) -> (r: bool)
    ensures
        r == is_divider(line@),
{
    let s = string_of(line);
    match regex_is_match(DIVIDER_PATTERN, s.as_str()) {
        Some(m) => m,
        None => false,
    }
}

/// The current content of a raw FlashNote log file.
pub fn extract_current_content(raw: &str) -> (r: String)
    ensures
        r@ == current_content(raw@),
{
    let chars = chars_of(raw);
    let normalized = normalize_line_endings(&chars);
    let lines = split_chars(&normalized, '\n');
    let ghost lv = views_of(lines@);
    let mut flags: Vec<bool> = Vec::new();
    let mut i: usize = 0;
    while i < lines.len()
        invariant
            i <= lines.len(),
            lv == views_of(lines@),
            lv == log_lines(raw@),
            flags@ =~= divider_flags(raw@).take(i as int),
        decreases lines.len() - i,
    {
        let f = is_divider_line(&lines[i]);
        assert(lines@[i as int]@ == lv[i as int]);
        flags.push(f);
        i += 1;
    }
    assert(flags@ =~= divider_flags(raw@));
    let r = content_from_lines(&lines, &flags);
    string_of(&r)
}

} // verus!

verus! {

// ---------------------------------------------------------------------------
// Importing an exported FlashNote folder
// ---------------------------------------------------------------------------

/// An entry of a folder being imported, as the file system describes it.
#[derive(Debug)]
pub struct ImportEntry {
    /// The entry's file name, when it is valid UTF-8.
    pub file_name: Option<String>,
    /// The file name without its extension, when it is valid UTF-8.
    pub file_stem: Option<String>,
    /// The extension, when there is one and it is valid UTF-8.
    pub extension: Option<String>,
    pub is_dir: bool,
}

/// A note to create for entry `entry`, titled `title`.
#[derive(Debug)]
pub struct ImportItem {
    pub entry: usize,
    pub title: String,
}

/// A note to create for subfolder entry `entry`, titled `title`, whose own
/// content is in entry `content_entry` (its same-named `.txt` sibling), if
/// there is one.
#[derive(Debug)]
pub struct FolderItem {
    pub entry: usize,
    pub title: String,
    pub content_entry: Option<usize>,
}

/// What to create for one folder: a note per subfolder (whose same-named
/// `.txt` sibling, if any, holds its content, and whose entries become its
/// children), then a note per remaining `.txt` file.
#[derive(Debug)]
pub struct ImportPlan {
    pub subfolders: Vec<FolderItem>,
    pub text_files: Vec<ImportItem>,
}

/// How an import went: how many notes it created and the first one created.
#[derive(Debug)]
pub struct ImportSummary {
    pub imported_count: i64,
    pub first_note_id: Option<i64>,
}

pub struct EntryInfo {
    pub file_name: Option<Seq<char>>,
    pub file_stem: Option<Seq<char>>,
    pub extension: Option<Seq<char>>,
    pub is_dir: bool,
}

impl View for ImportEntry {
    type V = EntryInfo;

    open spec fn view(&self) -> EntryInfo {
        EntryInfo {
            file_name: match self.file_name {
                Some(s) => Some(s@),
                None => None,
            },
            file_stem: match self.file_stem {
                Some(s) => Some(s@),
                None => None,
            },
            extension: match self.extension {
                Some(s) => Some(s@),
                None => None,
            },
            is_dir: self.is_dir,
        }
    }
}

pub open spec fn entry_infos(v: Seq<ImportEntry>) -> Seq<EntryInfo> {
    v.map_values(|e: ImportEntry| e@)
}

pub open spec fn item_views(v: Seq<ImportItem>) -> Seq<(usize, Seq<char>)> {
    v.map_values(|i: ImportItem| (i.entry, i.title@))
}

pub open spec fn folder_views(v: Seq<FolderItem>) -> Seq<(usize, Seq<char>, Option<usize>)> {
    v.map_values(|i: FolderItem| (i.entry, i.title@, i.content_entry))
}

/// `x`, or "Untitled" when absent.
pub open spec fn or_untitled(x: Option<Seq<char>>) -> Seq<char> {
    match x {
        Some(s) => s,
        None => "Untitled"@,
    }
}

/// A `.txt` file, matching the extension without regard to ASCII case.
pub open spec fn is_text_file(e: EntryInfo) -> bool {
    &&& !e.is_dir
    &&& e.extension matches Some(x)
    &&& crate::text::ascii_lowercase(x) == "txt"@
}

/// The first `.txt` file among `all[..n]` whose stem is `stem`.
pub open spec fn text_with_stem_before(all: Seq<EntryInfo>, n: int, stem: Seq<char>) -> Option<usize>
    decreases n,
{
    if n <= 0 {
        None
    } else {
        match text_with_stem_before(all, n - 1, stem) {
            Some(k) => Some(k),
            None => if is_text_file(all[n - 1]) && all[n - 1].file_stem == Some(stem) {
                Some((n - 1) as usize)
            } else {
                None
            },
        }
    }
}

/// The entry holding the own content of a subfolder named `name`: the first
/// `.txt` file among `all` with that stem (`Foo/` pairs with `Foo.txt`).
pub open spec fn content_file_of(all: Seq<EntryInfo>, name: Option<Seq<char>>) -> Option<usize> {
    match name {
        Some(n) => text_with_stem_before(all, all.len() as int, n),
        None => None,
    }
}

/// The subfolders among `entries` (position, title, entry of its content
/// file among `all`), in order.
pub open spec fn subfolders_of(all: Seq<EntryInfo>, entries: Seq<EntryInfo>) -> Seq<
    (usize, Seq<char>, Option<usize>),
>
    decreases entries.len(),
{
    if entries.len() == 0 {
        Seq::empty()
    } else {
        let rest = subfolders_of(all, entries.drop_last());
        let e = entries.last();
        if e.is_dir {
            rest.push(
                (
                    (entries.len() - 1) as usize,
                    or_untitled(e.file_name),
                    content_file_of(all, e.file_name),
                ),
            )
        } else {
            rest
        }
    }
}

/// Some subfolder among `entries` has the (valid) name `name`.
pub open spec fn has_subfolder_named(entries: Seq<EntryInfo>, name: Seq<char>) -> bool {
    exists|i: int| 0 <= i < entries.len() && #[trigger] entries[i].is_dir && entries[i].file_name
        == Some(name)
}

/// The `.txt` files among `entries` that are no subfolder's own content
/// (position, title from the stem), in order.
pub open spec fn text_files_of(all: Seq<EntryInfo>, entries: Seq<EntryInfo>) -> Seq<(usize, Seq<char>)>
    decreases entries.len(),
{
    if entries.len() == 0 {
        Seq::empty()
    } else {
        let rest = text_files_of(all, entries.drop_last());
        let e = entries.last();
        let title = or_untitled(e.file_stem);
        if is_text_file(e) && !has_subfolder_named(all, title) {
            rest.push(((entries.len() - 1) as usize, title))
        } else {
            rest
        }
    }
}

fn or_untitled_string(x: &Option<String>) -> (r: String)
    ensures
        r@ == or_untitled(
            match x {
                Some(s) => Some(s@),
                None => None,
            },
        ),
{
    match x {
        Some(s) => s.clone(),
        None => String::from_str("Untitled"),
    }
}

fn is_text_entry(e: &ImportEntry) -> (r: bool)
    ensures
        r == is_text_file(e@),
{
    if e.is_dir {
        return false;
    }
    match &e.extension {
        None => false,
        Some(x) => {
            let lower = crate::text::ascii_lowercase_chars(&chars_of(x.as_str()));
            let txt = chars_of("txt");
            let r = lower.len() == txt.len() && crate::text::starts_with_chars(&lower, &txt);
            assert(lower@.take(lower@.len() as int) =~= lower@);
            r
        },
    }
}

fn has_subfolder(entries: &Vec<ImportEntry>, name: &String) -> (r: bool)
    ensures
        r == has_subfolder_named(entry_infos(entries@), name@),
{
    let ghost ev = entry_infos(entries@);
    let mut i: usize = 0;
    while i < entries.len()
        invariant
            i <= entries.len(),
            ev == entry_infos(entries@),
            forall|j: int| 0 <= j < i ==> !(#[trigger] ev[j].is_dir && ev[j].file_name == Some(
                name@,
            )),
        decreases entries.len() - i,
    {
        let e = &entries[i];
        assert(ev[i as int] == e@);
        if e.is_dir {
            match &e.file_name {
                Some(n) => {
                    if *n == *name {
                        assert(ev[i as int].is_dir && ev[i as int].file_name == Some(name@));
                        return true;
                    }
                },
                None => {},
            }
        }
        i += 1;
    }
    false
}

/// Once found, the first match stays the first match.
proof fn lemma_stem_found_stays(all: Seq<EntryInfo>, n: int, m: int, stem: Seq<char>)
    requires
        n <= m,
        text_with_stem_before(all, n, stem) is Some,
    ensures
        text_with_stem_before(all, m, stem) == text_with_stem_before(all, n, stem),
    decreases m - n,
{
    if n < m {
        lemma_stem_found_stays(all, n, m - 1, stem);
    }
}

/// What the first match is: a `.txt` file with that stem, before `n`, with
/// none before it; no match means no such file before `n`.
pub proof fn lemma_text_with_stem(all: Seq<EntryInfo>, n: int, stem: Seq<char>)
    requires
        n <= all.len() <= usize::MAX,
    ensures
        match text_with_stem_before(all, n, stem) {
            Some(k) => {
                &&& 0 <= k < n
                &&& is_text_file(all[k as int])
                &&& all[k as int].file_stem == Some(stem)
                &&& forall|j: int|
                    0 <= j < k ==> !(is_text_file(#[trigger] all[j]) && all[j].file_stem == Some(
                        stem,
                    ))
            },
            None => forall|j: int|
                0 <= j < n ==> !(is_text_file(#[trigger] all[j]) && all[j].file_stem == Some(stem)),
        },
    decreases n,
{
    if n > 0 {
        lemma_text_with_stem(all, n - 1, stem);
        let last = all[n - 1];
        if text_with_stem_before(all, n - 1, stem) is None {
            assert forall|j: int| 0 <= j < n - 1 implies !(is_text_file(#[trigger] all[j])
                && all[j].file_stem == Some(stem)) by {}
            if !(is_text_file(last) && last.file_stem == Some(stem)) {
                assert forall|j: int| 0 <= j < n implies !(is_text_file(#[trigger] all[j])
                    && all[j].file_stem == Some(stem)) by {
                    if j == n - 1 {
                        assert(all[j] == last);
                    }
                }
            }
        }
    }
}

/// The first `.txt` entry whose stem is `stem`.
fn text_file_with_stem(entries: &Vec<ImportEntry>, stem: &String) -> (r: Option<usize>)
    ensures
        r == text_with_stem_before(entry_infos(entries@), entries.len() as int, stem@),
{
    let ghost ev = entry_infos(entries@);
    let mut i: usize = 0;
    while i < entries.len()
        invariant
            i <= entries.len(),
            ev == entry_infos(entries@),
            text_with_stem_before(ev, i as int, stem@) is None,
        decreases entries.len() - i,
    {
        let e = &entries[i];
        assert(ev[i as int] == e@);
        if is_text_entry(e) {
            match &e.file_stem {
                Some(st) => {
                    if *st == *stem {
                        assert(text_with_stem_before(ev, i + 1, stem@) == Some(i));
                        proof {
                            lemma_stem_found_stays(ev, i + 1, entries.len() as int, stem@);
                        }
                        return Some(i);
                    }
                },
                None => {},
            }
        }
        i += 1;
    }
    None
}

/// What to create for the entries of one folder being imported.
pub fn plan_import(entries: &Vec<ImportEntry>) -> (r: ImportPlan)
    ensures
        folder_views(r.subfolders@) == subfolders_of(entry_infos(entries@), entry_infos(entries@)),
        item_views(r.text_files@) == text_files_of(entry_infos(entries@), entry_infos(entries@)),
{
    let ghost ev = entry_infos(entries@);
    let mut subfolders: Vec<FolderItem> = Vec::new();
    let mut text_files: Vec<ImportItem> = Vec::new();
    let mut i: usize = 0;
    while i < entries.len()
        invariant
            i <= entries.len(),
            ev == entry_infos(entries@),
            folder_views(subfolders@) == subfolders_of(ev, ev.take(i as int)),
            item_views(text_files@) == text_files_of(ev, ev.take(i as int)),
        decreases entries.len() - i,
    {
        let e = &entries[i];
        assert(ev.take(i + 1).drop_last() =~= ev.take(i as int));
        assert(ev.take(i + 1).last() == e@);
        assert(ev.take(i + 1).len() - 1 == i);
        if e.is_dir {
            let content_entry = match &e.file_name {
                Some(n) => text_file_with_stem(entries, n),
                None => None,
            };
            let item = FolderItem {
                entry: i,
                title: or_untitled_string(&e.file_name),
                content_entry,
            };
            let ghost iv = (item.entry, item.title@, item.content_entry);
            let ghost before = subfolders@;
            subfolders.push(item);
            assert(folder_views(subfolders@) =~= folder_views(before).push(iv));
        } else if is_text_entry(e) {
            let title = or_untitled_string(&e.file_stem);
            if !has_subfolder(entries, &title) {
                let item = ImportItem { entry: i, title };
                let ghost iv = (item.entry, item.title@);
                let ghost before = text_files@;
                text_files.push(item);
                assert(item_views(text_files@) =~= item_views(before).push(iv));
            }
        }
        i += 1;
    }
    assert(ev.take(entries.len() as int) =~= ev);
    ImportPlan { subfolders, text_files }
}

/// The `.txt` files planned as notes of their own: each is a `.txt` entry,
/// titled by its stem, named by no subfolder; they come in entry order; and
/// every such entry is among them.
proof fn lemma_text_files_of(all: Seq<EntryInfo>, entries: Seq<EntryInfo>)
    requires
        entries.len() <= usize::MAX,
    ensures
        forall|q: int|
            0 <= q < text_files_of(all, entries).len() ==> {
                let (k, t) = #[trigger] text_files_of(all, entries)[q];
                &&& k < entries.len()
                &&& is_text_file(entries[k as int])
                &&& t == or_untitled(entries[k as int].file_stem)
                &&& !has_subfolder_named(all, t)
            },
        forall|q1: int, q2: int|
            0 <= q1 < q2 < text_files_of(all, entries).len() ==> (#[trigger] text_files_of(
                all,
                entries,
            )[q1]).0 < (#[trigger] text_files_of(all, entries)[q2]).0,
        forall|k: int|
            0 <= k < entries.len() && is_text_file(#[trigger] entries[k]) && !has_subfolder_named(
                all,
                or_untitled(entries[k].file_stem),
            ) ==> text_files_of(all, entries).contains(
                (k as usize, or_untitled(entries[k].file_stem)),
            ),
    decreases entries.len(),
{
    if entries.len() > 0 {
        let init = entries.drop_last();
        lemma_text_files_of(all, init);
        let rest = text_files_of(all, init);
        let tf = text_files_of(all, entries);
        let n = entries.len() - 1;
        assert forall|q: int| 0 <= q < rest.len() implies (#[trigger] rest[q]).0 < init.len()
            && init[rest[q].0 as int] == entries[rest[q].0 as int] by {}
        assert forall|k: int|
            0 <= k < entries.len() && is_text_file(#[trigger] entries[k]) && !has_subfolder_named(
                all,
                or_untitled(entries[k].file_stem),
            ) implies tf.contains((k as usize, or_untitled(entries[k].file_stem))) by {
            if k < n {
                assert(init[k] == entries[k]);
                let q = choose|q: int|
                    0 <= q < rest.len() && rest[q] == (k as usize, or_untitled(init[k].file_stem));
                assert(tf[q] == rest[q]);
            } else {
                assert(tf[tf.len() - 1] == (k as usize, or_untitled(entries[k].file_stem)));
            }
        }
    }
}

/// Every `.txt` file whose stem names no subfolder becomes exactly one note
/// of its own, titled by its stem; and every such note is one of those
/// files.
pub proof fn law_every_unpaired_text_file_is_planned(all: Seq<EntryInfo>)
    requires
        all.len() <= usize::MAX,
    ensures
        forall|k: int|
            0 <= k < all.len() && is_text_file(#[trigger] all[k]) && !(exists|i: int|
                0 <= i < all.len() && all[i].is_dir && all[i].file_name == Some(
                    or_untitled(all[k].file_stem),
                )) ==> exists|q: int|
                0 <= q < text_files_of(all, all).len() && text_files_of(all, all)[q] == (
                    k as usize,
                    or_untitled(all[k].file_stem),
                ),
        forall|q1: int, q2: int|
            0 <= q1 < text_files_of(all, all).len() && 0 <= q2 < text_files_of(all, all).len()
                && (#[trigger] text_files_of(all, all)[q1]).0 == (#[trigger] text_files_of(
                all,
                all,
            )[q2]).0 ==> q1 == q2,
        forall|q: int|
            0 <= q < text_files_of(all, all).len() ==> {
                let (k, t) = #[trigger] text_files_of(all, all)[q];
                &&& k < all.len()
                &&& is_text_file(all[k as int])
                &&& t == or_untitled(all[k as int].file_stem)
                &&& !(exists|i: int| 0 <= i < all.len() && all[i].is_dir && all[i].file_name == Some(t))
            },
{
    lemma_text_files_of(all, all);
    let tf = text_files_of(all, all);
    assert forall|q1: int, q2: int|
        0 <= q1 < tf.len() && 0 <= q2 < tf.len() && (#[trigger] tf[q1]).0 == (#[trigger] tf[q2]).0
        implies q1 == q2 by {
        if q1 < q2 {
            assert(tf[q1].0 < tf[q2].0);
        } else if q2 < q1 {
            assert(tf[q2].0 < tf[q1].0);
        }
    }
    assert forall|q: int| 0 <= q < tf.len() implies !(exists|i: int|
        0 <= i < all.len() && all[i].is_dir && all[i].file_name == Some((#[trigger] tf[q]).1)) by {
        if exists|i: int| 0 <= i < all.len() && all[i].is_dir && all[i].file_name == Some(tf[q].1) {
            let i = choose|i: int| 0 <= i < all.len() && all[i].is_dir && all[i].file_name == Some(tf[q].1);
            assert(all[i].is_dir);
        }
    }
}

/// A subfolder named `n` takes its own content from the first `.txt` file
/// whose stem is `n` (`Foo/` from `Foo.txt`, `v1.2/` from `v1.2.txt`), and
/// that file becomes no note of its own; when there is no such file, the
/// subfolder's note starts empty.
pub proof fn law_subfolder_reads_same_named_text(all: Seq<EntryInfo>, i: int, n: Seq<char>)
    requires
        all.len() <= usize::MAX,
        0 <= i < all.len(),
        all[i].is_dir,
        all[i].file_name == Some(n),
    ensures
        match content_file_of(all, all[i].file_name) {
            Some(k) => {
                &&& 0 <= k < all.len()
                &&& is_text_file(all[k as int])
                &&& all[k as int].file_stem == Some(n)
                &&& forall|j: int|
                    0 <= j < k ==> !(is_text_file(#[trigger] all[j]) && all[j].file_stem == Some(n))
                &&& forall|q: int|
                    0 <= q < text_files_of(all, all).len() ==> (#[trigger] text_files_of(
                        all,
                        all,
                    )[q]).0 != k
            },
            None => forall|j: int|
                0 <= j < all.len() ==> !(is_text_file(#[trigger] all[j]) && all[j].file_stem == Some(
                    n,
                )),
        },
{
    lemma_text_with_stem(all, all.len() as int, n);
    lemma_text_files_of(all, all);
    assert(has_subfolder_named(all, n)) by {
        assert(all[i].is_dir);
    }
    if let Some(k) = content_file_of(all, all[i].file_name) {
        assert forall|q: int| 0 <= q < text_files_of(all, all).len() implies (#[trigger] text_files_of(
            all,
            all,
        )[q]).0 != k by {
            let (kk, t) = text_files_of(all, all)[q];
            if kk == k {
                assert(t == n);
            }
        }
    }
}

/// Counts a note created by the import, remembering the first one.
pub fn record_imported(summary: &mut ImportSummary, new_id: i64)
    requires
        old(summary).imported_count < i64::MAX,
    ensures
        final(summary).imported_count == old(summary).imported_count + 1,
        final(summary).first_note_id == (match old(summary).first_note_id {
            Some(f) => Some(f),
            None => Some(new_id),
        }),
{
    summary.imported_count = summary.imported_count + 1;
    if summary.first_note_id.is_none() {
        summary.first_note_id = Some(new_id);
    }
}

} // verus!

verus! {

proof fn lemma_last_nonblank_trimmed(segs: Seq<Seq<char>>)
    ensures
        trim(last_nonblank(segs)) == last_nonblank(segs),
    decreases segs.len(),
{
    if segs.len() == 0 {
        assert(trim(Seq::<char>::empty()) =~= Seq::<char>::empty()) by {
            assert(crate::text::trim_start(Seq::<char>::empty()) =~= Seq::<char>::empty());
        }
    } else if trim(segs.last()).len() > 0 {
        crate::text::lemma_trim_idempotent(segs.last());
    } else {
        lemma_last_nonblank_trimmed(segs.drop_last());
    }
}

/// The content taken from a log never starts or ends with white space:
/// trimming it again changes nothing.
pub proof fn law_content_is_trimmed(lines: Seq<Seq<char>>, divider: Seq<bool>)
    ensures
        trim(content_of_lines(lines, divider)) == content_of_lines(lines, divider),
{
    let d = last_true(divider);
    if d < 0 {
        crate::text::lemma_trim_idempotent(join_with(lines, '\n'));
    } else {
        let segs = segments(lines, divider);
        crate::text::lemma_trim_idempotent(segs.last());
        lemma_last_nonblank_trimmed(segs.drop_last());
    }
}

/// A log with no divider line gives its whole text, line endings
/// normalised and trimmed.
pub proof fn law_no_divider_gives_whole_text(raw: Seq<char>)
    requires
        forall|i: int| 0 <= i < log_lines(raw).len() ==> !is_divider(#[trigger] log_lines(raw)[i]),
    ensures
        current_content(raw) == trim(crlf_to_lf(raw)),
{
    let flags = divider_flags(raw);
    lemma_last_true(flags);
    if last_true(flags) >= 0 {
        assert(flags[last_true(flags)]);
    }
    lemma_join_split(crlf_to_lf(raw), '\n');
}

/// A log saved with Windows line endings gives the same content as the same
/// log with Unix ones.
pub proof fn law_line_endings_do_not_matter(raw: Seq<char>)
    requires
        !raw.contains('\r'),
    ensures
        current_content(lf_to_crlf(raw)) == current_content(raw),
{
    lemma_crlf_round_trip(raw);
    assert(log_lines(lf_to_crlf(raw)) == log_lines(raw));
    assert(divider_flags(lf_to_crlf(raw)) =~= divider_flags(raw));
}

} // verus!

verus! {

/// The last group of lines is exactly the lines after the last divider
/// before `k` (or all of them when there is none), blank lines included.
proof fn lemma_groups_last(lines: Seq<Seq<char>>, divider: Seq<bool>, k: int, d: int)
    requires
        0 <= k <= lines.len(),
        k <= divider.len(),
        -1 <= d < k,
        d >= 0 ==> divider[d],
        forall|j: int| d < j < k ==> !divider[j],
    ensures
        line_groups(lines.take(k), divider).last() == lines.subrange(d + 1, k),
    decreases k,
{
    let lk = lines.take(k);
    if k == 0 {
        assert(lk =~= Seq::<Seq<char>>::empty());
        assert(lines.subrange(0, 0) =~= Seq::<Seq<char>>::empty());
    } else {
        let n = k - 1;
        assert(lk.take(n) =~= lines.take(n));
        assert(lk[n] == lines[n]);
        let prev = line_groups(lines.take(n), divider);
        lemma_groups_nonempty(lines.take(n), divider);
        if divider[n] {
            assert(d == n);
            assert(lines.subrange(d + 1, k) =~= Seq::<Seq<char>>::empty());
        } else {
            assert(d < n);
            lemma_groups_last(lines, divider, n, d);
            assert(lines.subrange(d + 1, k) =~= lines.subrange(d + 1, n).push(lines[n]));
        }
    }
}

/// When the text after a log's last divider line is not blank (or that
/// divider carries a timestamp), the current content is exactly the lines
/// after that divider, every one of them, blank ones included, joined with
/// newlines and trimmed.
pub proof fn law_content_after_last_divider(raw: Seq<char>, d: int)
    requires
        0 <= d < log_lines(raw).len(),
        is_divider(log_lines(raw)[d]),
        forall|j: int| d < j < log_lines(raw).len() ==> !is_divider(#[trigger] log_lines(raw)[j]),
    ensures
        ({
            let lines = log_lines(raw);
            let after = trim(join_with(lines.subrange(d + 1, lines.len() as int), '\n'));
            (after.len() > 0 || contains_char(lines[d], '/')) ==> current_content(raw) == after
        }),
{
    let lines = log_lines(raw);
    let flags = divider_flags(raw);
    lemma_last_true(flags);
    let l = last_true(flags);
    assert(flags[d]);
    if l < d {
        assert(!flags[d]);
    }
    if l > d {
        assert(!is_divider(lines[l]));
    }
    assert(l == d);
    assert(lines.take(lines.len() as int) =~= lines);
    lemma_groups_last(lines, flags, lines.len() as int, d);
    lemma_groups_nonempty(lines, flags);
    let segs = segments(lines, flags);
    assert(segs.last() == join_with(line_groups(lines, flags).last(), '\n'));
}

} // verus!

verus! {

// ---------------------------------------------------------------------------
// The fallback past a trailing undated divider
// ---------------------------------------------------------------------------

/// `s` holds only whitespace.
pub open spec fn blank(s: Seq<char>) -> bool {
    forall|i: int| 0 <= i < s.len() ==> crate::text::is_whitespace(#[trigger] s[i])
}

/// Every line of `ls` holds only whitespace.
pub open spec fn all_blank(ls: Seq<Seq<char>>) -> bool {
    forall|i: int| 0 <= i < ls.len() ==> blank(#[trigger] ls[i])
}

proof fn lemma_trim_start_empty(s: Seq<char>)
    ensures
        (crate::text::trim_start(s).len() == 0) == blank(s),
    decreases s.len(),
{
    if s.len() > 0 {
        if crate::text::is_whitespace(s[0]) {
            let t = s.drop_first();
            lemma_trim_start_empty(t);
            if blank(t) {
                assert forall|i: int| 0 <= i < s.len() implies crate::text::is_whitespace(
                    #[trigger] s[i],
                ) by {
                    if i > 0 {
                        assert(s[i] == t[i - 1]);
                    }
                }
            }
            if blank(s) {
                assert forall|i: int| 0 <= i < t.len() implies crate::text::is_whitespace(
                    #[trigger] t[i],
                ) by {
                    assert(t[i] == s[i + 1]);
                }
            }
        } else {
            assert(!crate::text::is_whitespace(s[0]));
        }
    }
}

proof fn lemma_trim_end_keeps_first(a: Seq<char>)
    requires
        a.len() > 0,
        !crate::text::is_whitespace(a[0]),
    ensures
        crate::text::trim_end(a).len() > 0,
    decreases a.len(),
{
    if crate::text::is_whitespace(a.last()) {
        assert(a.len() > 1);
        assert(a.drop_last()[0] == a[0]);
        lemma_trim_end_keeps_first(a.drop_last());
    }
}

/// Trimming leaves nothing exactly when the text is all whitespace.
pub proof fn lemma_trim_empty_iff_blank(s: Seq<char>)
    ensures
        (trim(s).len() == 0) == blank(s),
{
    lemma_trim_start_empty(s);
    crate::text::lemma_trim_start_shape(s);
    let a = crate::text::trim_start(s);
    if a.len() > 0 {
        lemma_trim_end_keeps_first(a);
    }
}

/// Blank lines joined with newlines make a blank text.
proof fn lemma_join_blank(parts: Seq<Seq<char>>)
    requires
        all_blank(parts),
    ensures
        blank(join_with(parts, '\n')),
    decreases parts.len(),
{
    if parts.len() == 1 {
        assert(blank(parts[0]));
    } else if parts.len() > 1 {
        let init = parts.drop_last();
        assert forall|i: int| 0 <= i < init.len() implies blank(#[trigger] init[i]) by {
            assert(init[i] == parts[i]);
        }
        lemma_join_blank(init);
        let jd = join_with(init, '\n');
        let last = parts.last();
        assert(blank(last)) by {
            assert(last == parts[parts.len() - 1]);
        }
        let j = jd.push('\n') + last;
        assert(crate::text::is_whitespace('\n'));
        assert forall|i: int| 0 <= i < j.len() implies crate::text::is_whitespace(#[trigger] j[i]) by {
            if i < jd.len() {
                assert(j[i] == jd[i]);
            } else if i == jd.len() {
                assert(j[i] == '\n');
            } else {
                assert(j[i] == last[i - jd.len() - 1]);
            }
        }
    }
}

/// One more line: a divider opens a new empty group, any other line joins
/// the last group.
proof fn lemma_groups_step(lines: Seq<Seq<char>>, divider: Seq<bool>, m: int)
    requires
        0 <= m < lines.len(),
    ensures
        ({
            let g = line_groups(lines.take(m), divider);
            line_groups(lines.take(m + 1), divider) == if divider[m] {
                g.push(Seq::empty())
            } else {
                g.update(g.len() - 1, g.last().push(lines[m]))
            }
        }),
{
    assert(lines.take(m + 1).take(m) =~= lines.take(m));
    assert(lines.take(m + 1)[m] == lines[m]);
}

/// Groups closed by a divider never change afterwards.
proof fn lemma_groups_frozen(lines: Seq<Seq<char>>, divider: Seq<bool>, k: int, m: int)
    requires
        0 <= k <= m <= lines.len(),
    ensures
        line_groups(lines.take(m), divider).len() >= line_groups(lines.take(k), divider).len(),
        forall|g: int|
            0 <= g < line_groups(lines.take(k), divider).len() - 1 ==> #[trigger] line_groups(
                lines.take(m),
                divider,
            )[g] == line_groups(lines.take(k), divider)[g],
    decreases m - k,
{
    if k < m {
        lemma_groups_frozen(lines, divider, k, m - 1);
        lemma_groups_step(lines, divider, m - 1);
        lemma_groups_nonempty(lines.take(m - 1), divider);
    }
}

/// When every line from `k0` on that is no divider is blank, every group
/// from the one open at `k0` on holds blank lines only.
proof fn lemma_groups_blank_tail(lines: Seq<Seq<char>>, divider: Seq<bool>, k0: int, m: int)
    requires
        0 <= k0 <= m <= lines.len(),
        forall|j: int| k0 <= j < m && !divider[j] ==> blank(#[trigger] lines[j]),
        all_blank(line_groups(lines.take(k0), divider).last()),
    ensures
        forall|g: int|
            line_groups(lines.take(k0), divider).len() - 1 <= g < line_groups(
                lines.take(m),
                divider,
            ).len() ==> all_blank(#[trigger] line_groups(lines.take(m), divider)[g]),
    decreases m - k0,
{
    lemma_groups_nonempty(lines.take(k0), divider);
    if k0 < m {
        lemma_groups_blank_tail(lines, divider, k0, m - 1);
        lemma_groups_step(lines, divider, m - 1);
        lemma_groups_nonempty(lines.take(m - 1), divider);
        lemma_groups_frozen(lines, divider, k0, m - 1);
        let prev = line_groups(lines.take(m - 1), divider);
        let cur = line_groups(lines.take(m), divider);
        let base = line_groups(lines.take(k0), divider).len() - 1;
        assert forall|g: int| base <= g < cur.len() implies all_blank(#[trigger] cur[g]) by {
            if divider[m - 1] {
                if g < prev.len() {
                    assert(cur[g] == prev[g]);
                } else {
                    assert(cur[g] =~= Seq::<Seq<char>>::empty());
                }
            } else {
                if g < prev.len() - 1 {
                    assert(cur[g] == prev[g]);
                } else {
                    let last = prev.last().push(lines[m - 1]);
                    assert(cur[g] == last);
                    assert(all_blank(prev[prev.len() - 1]));
                    assert(blank(lines[m - 1]));
                    assert forall|i: int| 0 <= i < last.len() implies blank(#[trigger] last[i]) by {
                        if i < prev.last().len() {
                            assert(last[i] == prev.last()[i]);
                        }
                    }
                }
            }
        }
    }
}

/// The last non-blank text of `s` is at `idx` when every one after it is
/// blank.
proof fn lemma_last_nonblank_pick(s: Seq<Seq<char>>, idx: int)
    requires
        0 <= idx < s.len(),
        trim(s[idx]).len() > 0,
        forall|g: int| idx < g < s.len() ==> trim(#[trigger] s[g]).len() == 0,
    ensures
        last_nonblank(s) == trim(s[idx]),
    decreases s.len(),
{
    if idx < s.len() - 1 {
        let t = s.drop_last();
        assert(trim(s[s.len() - 1]).len() == 0);
        assert forall|g: int| idx < g < t.len() implies trim(#[trigger] t[g]).len() == 0 by {
            assert(t[g] == s[g]);
        }
        lemma_last_nonblank_pick(t, idx);
    }
}

/// A log that ends on an undated divider with nothing but blank lines and
/// dividers after the last text that is not blank gives that text: the
/// lines between the two dividers around it (or the start of the log and
/// the divider after it), joined with newlines and trimmed.
pub proof fn law_undated_end_falls_back_to_last_text(raw: Seq<char>, a: int, b: int, d: int)
    requires
        0 <= d < log_lines(raw).len(),
        is_divider(log_lines(raw)[d]),
        !contains_char(log_lines(raw)[d], '/'),
        forall|j: int| d < j < log_lines(raw).len() ==> !is_divider(#[trigger] log_lines(raw)[j]),
        -1 <= a < b < log_lines(raw).len(),
        a >= 0 ==> is_divider(log_lines(raw)[a]),
        is_divider(log_lines(raw)[b]),
        forall|j: int| a < j < b ==> !is_divider(#[trigger] log_lines(raw)[j]),
        trim(join_with(log_lines(raw).subrange(a + 1, b), '\n')).len() > 0,
        forall|j: int|
            b < j < log_lines(raw).len() && !is_divider(#[trigger] log_lines(raw)[j]) ==> trim(
                log_lines(raw)[j],
            ).len() == 0,
    ensures
        current_content(raw) == trim(join_with(log_lines(raw).subrange(a + 1, b), '\n')),
{
    let lines = log_lines(raw);
    let n = lines.len() as int;
    let flags = divider_flags(raw);
    lemma_last_true(flags);
    let l = last_true(flags);
    assert(flags[d]);
    if l < d {
        assert(!flags[d]);
    }
    if l > d {
        assert(!is_divider(lines[l]));
    }
    assert(l == d);
    assert(lines.take(n) =~= lines);
    // the group between a and b
    lemma_groups_last(lines, flags, b, a);
    let gb = line_groups(lines.take(b), flags);
    lemma_groups_nonempty(lines.take(b), flags);
    let idx = gb.len() - 1;
    lemma_groups_step(lines, flags, b);
    let gb1 = line_groups(lines.take(b + 1), flags);
    assert(gb1 == gb.push(Seq::empty()));
    lemma_groups_frozen(lines, flags, b + 1, n);
    let groups = line_groups(lines, flags);
    assert(groups[idx] == gb1[idx]);
    assert(groups[idx] == lines.subrange(a + 1, b));
    // every later group is blank
    assert forall|j: int| b + 1 <= j < n && !flags[j] implies blank(#[trigger] lines[j]) by {
        lemma_trim_empty_iff_blank(lines[j]);
    }
    assert(all_blank(gb1.last())) by {
        assert(gb1.last() =~= Seq::<Seq<char>>::empty());
    }
    lemma_groups_blank_tail(lines, flags, b + 1, n);
    let segs = segments(lines, flags);
    let L = groups.len() as int;
    assert(L >= idx + 2);
    assert(all_blank(groups[L - 1]));
    lemma_join_blank(groups[L - 1]);
    lemma_trim_empty_iff_blank(segs.last());
    assert(segs.last() == join_with(groups[L - 1], '\n'));
    let s = segs.drop_last();
    assert(s[idx] == join_with(groups[idx], '\n'));
    assert forall|g: int| idx < g < s.len() implies trim(#[trigger] s[g]).len() == 0 by {
        assert(s[g] == join_with(groups[g], '\n'));
        assert(all_blank(groups[g]));
        lemma_join_blank(groups[g]);
        lemma_trim_empty_iff_blank(s[g]);
    }
    lemma_last_nonblank_pick(s, idx);
}

} // verus!

verus! {

proof fn lemma_subfolders_of(all: Seq<EntryInfo>, entries: Seq<EntryInfo>)
    requires
        entries.len() <= usize::MAX,
    ensures
        forall|q: int|
            0 <= q < subfolders_of(all, entries).len() ==> {
                let (k, t, c) = #[trigger] subfolders_of(all, entries)[q];
                &&& k < entries.len()
                &&& entries[k as int].is_dir
                &&& t == or_untitled(entries[k as int].file_name)
                &&& c == content_file_of(all, entries[k as int].file_name)
            },
        forall|q1: int, q2: int|
            0 <= q1 < q2 < subfolders_of(all, entries).len() ==> (#[trigger] subfolders_of(
                all,
                entries,
            )[q1]).0 < (#[trigger] subfolders_of(all, entries)[q2]).0,
        forall|k: int|
            0 <= k < entries.len() && (#[trigger] entries[k]).is_dir ==> subfolders_of(
                all,
                entries,
            ).contains(
                (
                    k as usize,
                    or_untitled(entries[k].file_name),
                    content_file_of(all, entries[k].file_name),
                ),
            ),
    decreases entries.len(),
{
    if entries.len() > 0 {
        let init = entries.drop_last();
        lemma_subfolders_of(all, init);
        let rest = subfolders_of(all, init);
        let sf = subfolders_of(all, entries);
        let n = entries.len() - 1;
        assert forall|q: int| 0 <= q < rest.len() implies (#[trigger] rest[q]).0 < init.len()
            && init[rest[q].0 as int] == entries[rest[q].0 as int] by {}
        assert forall|k: int| 0 <= k < entries.len() && (#[trigger] entries[k]).is_dir implies sf.contains(
            (
                k as usize,
                or_untitled(entries[k].file_name),
                content_file_of(all, entries[k].file_name),
            ),
        ) by {
            if k < n {
                assert(init[k] == entries[k]);
                let q = choose|q: int|
                    0 <= q < rest.len() && rest[q] == (
                        k as usize,
                        or_untitled(init[k].file_name),
                        content_file_of(all, init[k].file_name),
                    );
                assert(sf[q] == rest[q]);
            } else {
                assert(sf[sf.len() - 1] == (
                    k as usize,
                    or_untitled(entries[k].file_name),
                    content_file_of(all, entries[k].file_name),
                ));
            }
        }
    }
}

/// Every subfolder becomes exactly one note, titled by its name ("Untitled"
/// when the name is not valid UTF-8), in entry order, and nothing else does.
pub proof fn law_every_subfolder_is_planned(all: Seq<EntryInfo>)
    requires
        all.len() <= usize::MAX,
    ensures
        forall|k: int|
            0 <= k < all.len() && (#[trigger] all[k]).is_dir ==> exists|q: int|
                0 <= q < subfolders_of(all, all).len() && subfolders_of(all, all)[q].0 == k
                    && subfolders_of(all, all)[q].1 == or_untitled(all[k].file_name),
        forall|q1: int, q2: int|
            0 <= q1 < q2 < subfolders_of(all, all).len() ==> (#[trigger] subfolders_of(all, all)[q1]).0
                < (#[trigger] subfolders_of(all, all)[q2]).0,
        forall|q: int|
            0 <= q < subfolders_of(all, all).len() ==> (#[trigger] subfolders_of(all, all)[q]).0
                < all.len() && all[subfolders_of(all, all)[q].0 as int].is_dir,
{
    lemma_subfolders_of(all, all);
    let sf = subfolders_of(all, all);
    assert forall|k: int| 0 <= k < all.len() && (#[trigger] all[k]).is_dir implies exists|q: int|
        0 <= q < sf.len() && sf[q].0 == k && sf[q].1 == or_untitled(all[k].file_name) by {
        let q = choose|q: int|
            0 <= q < sf.len() && sf[q] == (
                k as usize,
                or_untitled(all[k].file_name),
                content_file_of(all, all[k].file_name),
            );
        assert(sf[q].0 == k);
    }
}

} // verus!
