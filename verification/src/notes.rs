//! Notes: the record types and the decisions behind creating, editing,
//! duplicating, moving and reordering notes in the tree. The SQL that reads
//! and writes the rows is run by the application around these functions.
use crate::text::{chars_of, push_str, string_of};
use vstd::prelude::*;

verus! {

/// A stored note.
#[derive(Debug)]
pub struct Note {
    pub id: i64,
    pub title: String,
    pub content: String,
    pub parent_id: Option<i64>,
    pub created_at: String,
    pub updated_at: String,
    pub is_markdown: bool,
    pub is_locked: bool,
    pub sort_order: i64,
}

/// What the front end sends to create a note.
#[derive(Debug)]
pub struct NoteInput {
    pub title: Option<String>,
    pub content: Option<String>,
    pub parent_id: Option<i64>,
    pub is_markdown: Option<bool>,
    pub is_locked: Option<bool>,
}

/// What the front end sends to edit a note; absent fields stay as they are.
#[derive(Debug)]
pub struct NoteUpdate {
    pub id: i64,
    pub title: Option<String>,
    pub content: Option<String>,
    pub is_markdown: Option<bool>,
    pub is_locked: Option<bool>,
}

/// The values of a note row about to be inserted.
#[derive(Debug)]
pub struct NewNote {
    pub title: String,
    pub content: String,
    pub parent_id: Option<i64>,
    pub is_markdown: bool,
    pub is_locked: bool,
}

/// The values an edit writes back to a note row.
#[derive(Debug)]
pub struct NoteChanges {
    pub title: String,
    pub content: String,
    pub is_markdown: bool,
    pub is_locked: bool,
}

pub const UNTITLED: &'static str = "Untitled";

pub const COPY_SUFFIX: &'static str = " (copy)";

/// The values of a new note: the input's, with an untitled, empty,
/// plain-text, unlocked note as the default for each absent field.
pub fn new_note_values(input: NoteInput) -> (r: NewNote)
    ensures
        r.title@ == (match input.title {
            Some(t) => t@,
            None => UNTITLED@,
        }),
        r.content@ == (match input.content {
            Some(c) => c@,
            None => Seq::empty(),
        }),
        r.parent_id == input.parent_id,
        r.is_markdown == (match input.is_markdown {
            Some(b) => b,
            None => false,
        }),
        r.is_locked == (match input.is_locked {
            Some(b) => b,
            None => false,
        }),
{
    let title = match input.title {
        Some(t) => t,
        None => String::from_str(UNTITLED),
    };
    let content = match input.content {
        Some(c) => c,
        None => String::new(),
    };
    let is_markdown = match input.is_markdown {
        Some(b) => b,
        None => false,
    };
    let is_locked = match input.is_locked {
        Some(b) => b,
        None => false,
    };
    NewNote { title, content, parent_id: input.parent_id, is_markdown, is_locked }
}

/// The refusal text for editing a locked note.
pub open spec fn locked_message() -> Seq<char> {
    "Note is locked"@
}

/// An edit changes the text of a note that is locked and stays locked.
pub open spec fn edits_locked_text(existing: &Note, update: &NoteUpdate) -> bool {
    let stays_locked = match update.is_locked {
        Some(b) => b,
        None => existing.is_locked,
    };
    &&& existing.is_locked
    &&& stays_locked
    &&& (update.title matches Some(t) && t@ != existing.title@) || (update.content matches Some(c)
        && c@ != existing.content@)
}

/// The values an edit writes: each field from the update when given, else
/// as stored. An edit that changes the title or content of a note that is
/// locked and stays locked is refused (unlocking and editing in one edit is
/// allowed).
pub fn apply_note_update(existing: &Note, update: NoteUpdate) -> (r: Result<NoteChanges, String>)
    ensures
        r is Err <==> edits_locked_text(existing, &update),
        r matches Err(e) ==> e@ == locked_message(),
        r matches Ok(c) ==> {
            &&& c.title@ == (match update.title {
                Some(t) => t@,
                None => existing.title@,
            })
            &&& c.content@ == (match update.content {
                Some(t) => t@,
                None => existing.content@,
            })
            &&& c.is_markdown == (match update.is_markdown {
                Some(b) => b,
                None => existing.is_markdown,
            })
            &&& c.is_locked == (match update.is_locked {
                Some(b) => b,
                None => existing.is_locked,
            })
        },
{
    let is_locked = match update.is_locked {
        Some(b) => b,
        None => existing.is_locked,
    };
    let title_changes = match &update.title {
        Some(t) => *t != existing.title,
        None => false,
    };
    let content_changes = match &update.content {
        Some(c) => *c != existing.content,
        None => false,
    };
    if existing.is_locked && is_locked && (title_changes || content_changes) {
        return Err(String::from_str("Note is locked"));
    }
    let title = match update.title {
        Some(t) => t,
        None => existing.title.clone(),
    };
    let content = match update.content {
        Some(c) => c,
        None => existing.content.clone(),
    };
    let is_markdown = match update.is_markdown {
        Some(b) => b,
        None => existing.is_markdown,
    };
    Ok(NoteChanges { title, content, is_markdown, is_locked })
}

/// When an update is refused: only an edit that changes the title or the
/// content of a note that is locked and stays locked. An update that
/// unlocks the note (together with any edit), an edit of an unlocked note,
/// and an update that changes neither title nor content are all accepted
/// (and `apply_note_update` then applies them).
pub proof fn law_when_an_update_is_refused(existing: &Note, update: &NoteUpdate)
    ensures
        update.is_locked == Some(false) ==> !edits_locked_text(existing, update),
        !existing.is_locked ==> !edits_locked_text(existing, update),
        (match update.title {
            Some(t) => t@ == existing.title@,
            None => true,
        }) && (match update.content {
            Some(c) => c@ == existing.content@,
            None => true,
        }) ==> !edits_locked_text(existing, update),
        existing.is_locked && update.is_locked != Some(false) && ((update.title matches Some(t)
            && t@ != existing.title@) || (update.content matches Some(c) && c@
            != existing.content@)) ==> edits_locked_text(existing, update),
{
}

/// An accepted edit of a note that is locked and stays locked leaves its
/// title and content as they were.
pub proof fn law_locked_note_text_is_kept(
    existing: &Note,
    update: &NoteUpdate,
    title: Seq<char>,
    content: Seq<char>,
    locked: bool,
)
    requires
        !edits_locked_text(existing, update),
        existing.is_locked,
        locked,
        locked == (match update.is_locked {
            Some(b) => b,
            None => existing.is_locked,
        }),
        title == (match update.title {
            Some(t) => t@,
            None => existing.title@,
        }),
        content == (match update.content {
            Some(t) => t@,
            None => existing.content@,
        }),
    ensures
        title == existing.title@,
        content == existing.content@,
{
}

/// The values of a copy of `source`: same text, parent and markdown flag,
/// the title marked as a copy, and never locked.
pub fn duplicate_values(source: &Note) -> (r: NewNote)
    ensures
        r.title@ == source.title@ + COPY_SUFFIX@,
        r.content@ == source.content@,
        r.parent_id == source.parent_id,
        r.is_markdown == source.is_markdown,
        !r.is_locked,
{
    let mut t = chars_of(source.title.as_str());
    push_str(&mut t, COPY_SUFFIX);
    NewNote {
        title: string_of(&t),
        content: source.content.clone(),
        parent_id: source.parent_id,
        is_markdown: source.is_markdown,
        is_locked: false,
    }
}

// ---------------------------------------------------------------------------
// Reordering siblings
// ---------------------------------------------------------------------------

/// Where a note dropped before `before_id` lands among `siblings`: just
/// before the first sibling with that id, or at the end when there is none.
pub open spec fn insert_position(siblings: Seq<i64>, before_id: Option<i64>) -> int {
    match before_id {
        Some(b) => if siblings.contains(b) {
            choose|p: int| 0 <= p < siblings.len() && siblings[p] == b && forall|q: int| 0 <= q < p ==> siblings[q] != b
        } else {
            siblings.len() as int
        },
        None => siblings.len() as int,
    }
}

/// The new order of a sibling list after placing `id` before `before_id`
/// (or at the end). The position in this list is each sibling's new sort
/// order.
pub fn reorder_siblings(siblings: Vec<i64>, id: i64, before_id: Option<i64>) -> (r: Vec<i64>)
    ensures
        r@ == siblings@.insert(insert_position(siblings@, before_id), id),
        0 <= insert_position(siblings@, before_id) <= siblings@.len(),
{
    let mut pos = siblings.len();
    match before_id {
        Some(b) => {
            let mut i: usize = 0;
            while i < siblings.len() && siblings[i] != b
                invariant
                    i <= siblings.len(),
                    forall|q: int| 0 <= q < i ==> siblings@[q] != b,
                decreases siblings.len() - i,
            {
                i += 1;
            }
            pos = i;
            proof {
                if pos < siblings.len() {
                    assert(siblings@[pos as int] == b);
                    assert(siblings@.contains(b));
                    let c = choose|p: int|
                        0 <= p < siblings@.len() && siblings@[p] == b && forall|q: int|
                            0 <= q < p ==> siblings@[q] != b;
                    if c < pos {
                        assert(siblings@[c] != b);
                    }
                    assert(c == pos);
                    if pos < c {
                        assert(siblings@[pos as int] != b);
                    }
                } else {
                    assert(!siblings@.contains(b));
                }
            }
        },
        None => {},
    }
    let mut out = siblings;
    out.insert(pos, id);
    out
}

/// Reordering keeps every sibling, in their relative order, puts the moved
/// note at its landing position, and numbers the list densely from zero
/// (each position is a sort order).
pub proof fn law_reorder_keeps_siblings(siblings: Seq<i64>, id: i64, before_id: Option<i64>)
    ensures
        ({
            let p = insert_position(siblings, before_id);
            let r = siblings.insert(p, id);
            &&& 0 <= p <= siblings.len()
            &&& r.len() == siblings.len() + 1
            &&& r[p] == id
            &&& r.take(p) == siblings.take(p)
            &&& r.skip(p + 1) == siblings.skip(p)
            &&& before_id matches Some(b) ==> (siblings.contains(b) ==> r[p + 1] == b)
        }),
{
    let p = insert_position(siblings, before_id);
    if let Some(b) = before_id {
        if siblings.contains(b) {
            let w = choose|w: int| 0 <= w < siblings.len() && siblings[w] == b;
            crate::notes::lemma_first_occurrence(siblings, b, w);
        }
    }
    let r = siblings.insert(p, id);
    assert(r.take(p) =~= siblings.take(p));
    assert(r.skip(p + 1) =~= siblings.skip(p));
}

/// An occurring value has a first occurrence.
pub proof fn lemma_first_occurrence(s: Seq<i64>, b: i64, w: int)
    requires
        0 <= w < s.len(),
        s[w] == b,
    ensures
        exists|p: int| 0 <= p < s.len() && s[p] == b && forall|q: int| 0 <= q < p ==> s[q] != b,
    decreases w,
{
    if exists|q: int| 0 <= q < w && s[q] == b {
        let q = choose|q: int| 0 <= q < w && s[q] == b;
        lemma_first_occurrence(s, b, q);
    } else {
        assert(forall|q: int| 0 <= q < w ==> s[q] != b);
    }
}

// ---------------------------------------------------------------------------
// Moving within the tree without creating a cycle
// ---------------------------------------------------------------------------

/// The two kinds of tree the app keeps (notes, and the legacy folders);
/// they differ only in their wording.
#[derive(Clone, Copy, Debug, PartialEq, Eq, Structural)]
pub enum TreeKind {
    Notes,
    Folders,
}

/// The next step of the check that a move does not put an item inside
/// itself: accept, refuse with a message, or look up the parent of an
/// ancestor and continue.
#[derive(Debug)]
pub enum CycleStep {
    Accept,
    Reject(String),
    LookUpParentOf(i64),
}

/// The refusal text for a move into the item itself.
pub open spec fn self_move_message(kind: TreeKind) -> Seq<char> {
    match kind {
        TreeKind::Notes => "A note cannot be moved into itself"@,
        TreeKind::Folders => "A folder cannot be moved into itself"@,
    }
}

/// The refusal text for a move into one of the item's descendants.
pub open spec fn descendant_move_message(kind: TreeKind) -> Seq<char> {
    match kind {
        TreeKind::Notes => "Cannot move a note into one of its own subnotes"@,
        TreeKind::Folders => "Cannot move a folder into one of its own subfolders"@,
    }
}

/// The outcome of a step, as plain values: 0 accept, 1 refused as a self
/// move, 2 refused as a descendant move, 3 look up the given id.
pub open spec fn step_is(r: &CycleStep, kind: TreeKind, code: int, next: i64) -> bool {
    match r {
        CycleStep::Accept => code == 0,
        CycleStep::Reject(m) => (code == 1 && m@ == self_move_message(kind)) || (code == 2 && m@
            == descendant_move_message(kind)),
        CycleStep::LookUpParentOf(n) => code == 3 && *n == next,
    }
}

fn descendant_rejection(kind: TreeKind) -> (r: CycleStep)
    ensures
        step_is(&r, kind, 2, 0),
{
    match kind {
        TreeKind::Notes => CycleStep::Reject(
            String::from_str("Cannot move a note into one of its own subnotes"),
        ),
        TreeKind::Folders => CycleStep::Reject(
            String::from_str("Cannot move a folder into one of its own subfolders"),
        ),
    }
}

/// The first step of the check for moving `id` under `parent_id`: a move to
/// the root is accepted, a move under itself refused, and otherwise the walk
/// up from the new parent starts.
pub fn cycle_check_start(kind: TreeKind, id: i64, parent_id: Option<i64>) -> (r: CycleStep)
    ensures
        parent_id == Some(id) ==> step_is(&r, kind, 1, 0),
        parent_id is None ==> step_is(&r, kind, 0, 0),
        parent_id matches Some(t) ==> (t != id ==> step_is(&r, kind, 3, t)),
{
    match parent_id {
        None => CycleStep::Accept,
        Some(t) => if t == id {
            match kind {
                TreeKind::Notes => CycleStep::Reject(
                    String::from_str("A note cannot be moved into itself"),
                ),
                TreeKind::Folders => CycleStep::Reject(
                    String::from_str("A folder cannot be moved into itself"),
                ),
            }
        } else {
            CycleStep::LookUpParentOf(t)
        },
    }
}

/// The step after looking up an ancestor's parent: reaching the root
/// accepts, reaching `id` refuses, anything else continues upward.
pub fn cycle_check_next(kind: TreeKind, id: i64, parent: Option<i64>) -> (r: CycleStep)
    ensures
        parent is None ==> step_is(&r, kind, 0, 0),
        parent == Some(id) ==> step_is(&r, kind, 2, 0),
        parent matches Some(p) ==> (p != id ==> step_is(&r, kind, 3, p)),
{
    match parent {
        None => CycleStep::Accept,
        Some(p) => if p == id {
            descendant_rejection(kind)
        } else {
            CycleStep::LookUpParentOf(p)
        },
    }
}

/// The outcome of walking up the chain of ancestors `chain` (the new parent,
/// its parent, and so on up to a root) with the two step functions: 0
/// accept, 1 self move, 2 descendant move.
pub open spec fn walk_outcome(id: i64, chain: Seq<i64>) -> int
    decreases chain.len(),
{
    if chain.len() == 0 {
        0
    } else if chain[0] == id {
        1
    } else {
        walk_rest(id, chain.drop_first())
    }
}

/// The outcome once the walk is past the new parent.
pub open spec fn walk_rest(id: i64, rest: Seq<i64>) -> int
    decreases rest.len(),
{
    if rest.len() == 0 {
        0
    } else if rest[0] == id {
        2
    } else {
        walk_rest(id, rest.drop_first())
    }
}

proof fn lemma_walk_rest(id: i64, rest: Seq<i64>)
    ensures
        walk_rest(id, rest) == (if rest.contains(id) { 2int } else { 0int }),
    decreases rest.len(),
{
    if rest.len() > 0 {
        lemma_walk_rest(id, rest.drop_first());
        if rest[0] != id {
            if rest.contains(id) {
                let k = choose|k: int| 0 <= k < rest.len() && rest[k] == id;
                assert(rest.drop_first()[k - 1] == id);
            }
            if rest.drop_first().contains(id) {
                let k = choose|k: int| 0 <= k < rest.drop_first().len() && rest.drop_first()[k] == id;
                assert(rest[k + 1] == id);
            }
        } else {
            assert(rest[0] == id);
        }
    }
}

/// A move is accepted exactly when the item is neither the new parent nor
/// one of its ancestors, that is, when the move would not put the item
/// inside itself or inside one of its own descendants.
pub proof fn law_move_refused_iff_cycle(id: i64, chain: Seq<i64>)
    ensures
        (walk_outcome(id, chain) == 0) == !chain.contains(id),
        chain.len() > 0 && chain[0] == id ==> walk_outcome(id, chain) == 1,
        chain.len() > 0 && chain[0] != id && chain.contains(id) ==> walk_outcome(id, chain) == 2,
{
    if chain.len() > 0 {
        lemma_walk_rest(id, chain.drop_first());
        if chain[0] != id {
            if chain.contains(id) {
                let k = choose|k: int| 0 <= k < chain.len() && chain[k] == id;
                assert(chain.drop_first()[k - 1] == id);
            }
            if chain.drop_first().contains(id) {
                let k = choose|k: int| 0 <= k < chain.drop_first().len() && chain.drop_first()[k] == id;
                assert(chain[k + 1] == id);
            }
        } else {
            assert(chain.contains(id));
        }
    }
}

} // verus!

verus! {

// ---------------------------------------------------------------------------
// Moves keep the tree a forest
// ---------------------------------------------------------------------------

/// `chain` walks up the parent links of `parents` (each item's parent id,
/// `None` at a root) from its first item to a root.
pub open spec fn root_chain(parents: Map<i64, Option<i64>>, chain: Seq<i64>) -> bool {
    &&& chain.len() > 0
    &&& forall|k: int| 0 <= k < chain.len() ==> parents.dom().contains(#[trigger] chain[k])
    &&& forall|k: int| 0 <= k < chain.len() - 1 ==> parents[#[trigger] chain[k]] == Some(chain[k + 1])
    &&& parents[chain.last()] is None
}

/// Every item reaches a root by following parent links: no item is its own
/// ancestor and no link leads outside the items.
pub open spec fn is_forest(parents: Map<i64, Option<i64>>) -> bool {
    forall|x: i64|
        parents.dom().contains(x) ==> exists|chain: Seq<i64>| #[trigger] root_chain(parents, chain)
            && chain[0] == x
}

/// A root chain that avoids `id` is still one after `id`'s parent changes.
proof fn lemma_chain_avoiding(parents: Map<i64, Option<i64>>, id: i64, p: Option<i64>, chain: Seq<i64>)
    requires
        root_chain(parents, chain),
        parents.dom().contains(id),
        !chain.contains(id),
    ensures
        root_chain(parents.insert(id, p), chain),
{
    let moved = parents.insert(id, p);
    assert forall|k: int| 0 <= k < chain.len() implies moved[#[trigger] chain[k]] == parents[chain[k]] by {
        assert(chain[k] != id);
    }
    assert(moved[chain.last()] == parents[chain.last()]) by {
        assert(chain[chain.len() - 1] != id);
    }
}

/// A move that the cycle check accepts keeps the items a forest: moving
/// `id` to the root, or under a parent whose walk up to a root (`chain`, as
/// the check looks it up) never meets `id`.
pub proof fn law_accepted_move_keeps_forest(
    parents: Map<i64, Option<i64>>,
    id: i64,
    parent_id: Option<i64>,
    chain: Seq<i64>,
)
    requires
        is_forest(parents),
        parents.dom().contains(id),
        parent_id matches Some(t) ==> root_chain(parents, chain) && chain[0] == t && walk_outcome(
            id,
            chain,
        ) == 0,
    ensures
        is_forest(parents.insert(id, parent_id)),
{
    let moved = parents.insert(id, parent_id);
    if parent_id is Some {
        law_move_refused_iff_cycle(id, chain);
        lemma_chain_avoiding(parents, id, parent_id, chain);
    }
    assert forall|x: i64| moved.dom().contains(x) implies exists|c: Seq<i64>|
        #[trigger] root_chain(moved, c) && c[0] == x by {
        assert(parents.dom().contains(x));
        let c = choose|c: Seq<i64>| #[trigger] root_chain(parents, c) && c[0] == x;
        if !c.contains(id) {
            lemma_chain_avoiding(parents, id, parent_id, c);
        } else {
            let w = choose|w: int| 0 <= w < c.len() && c[w] == id;
            lemma_first_occurrence(c, id, w);
            let f = choose|f: int|
                0 <= f < c.len() && c[f] == id && forall|q: int| 0 <= q < f ==> c[q] != id;
            let head = c.take(f + 1);
            let nc = match parent_id {
                Some(t) => head + chain,
                None => head,
            };
            assert forall|k: int| 0 <= k < f implies moved[#[trigger] head[k]] == parents[head[k]] by {
                assert(head[k] == c[k]);
            }
            assert(root_chain(moved, nc)) by {
                assert forall|k: int| 0 <= k < nc.len() implies moved.dom().contains(#[trigger] nc[k]) by {
                    if k <= f {
                        assert(nc[k] == c[k]);
                    } else {
                        assert(nc[k] == chain[k - f - 1]);
                    }
                }
                assert forall|k: int| 0 <= k < nc.len() - 1 implies moved[#[trigger] nc[k]] == Some(
                    nc[k + 1],
                ) by {
                    if k < f {
                        assert(nc[k] == c[k] && nc[k + 1] == c[k + 1]);
                        assert(c[k] != id);
                    } else if k == f {
                        assert(nc[k] == id);
                        assert(nc[k + 1] == chain[0]);
                    } else {
                        assert(nc[k] == chain[k - f - 1] && nc[k + 1] == chain[k - f]);
                        assert(root_chain(moved, chain));
                        assert(moved[chain[k - f - 1]] == Some(chain[k - f - 1 + 1]));
                    }
                }
                match parent_id {
                    Some(t) => {
                        assert(nc.last() == chain.last());
                    },
                    None => {
                        assert(nc.last() == id);
                    },
                }
            }
            assert(nc[0] == x);
        }
    }
}

} // verus!
