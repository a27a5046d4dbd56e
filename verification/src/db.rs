//! Database status and the ordering logic of the schema migrations; the SQL
//! itself is run by the application around this library.
use vstd::prelude::*;

verus! {

/// Whether the active database could be opened.
#[derive(Debug)]
pub enum DbStatus {
    Ready,
    Unavailable(String),
}

} // verus!

verus! {

// ---------------------------------------------------------------------------
// Folding the legacy folders table into notes
// ---------------------------------------------------------------------------

/// A row of the legacy `folders` table.
#[derive(Debug)]
pub struct FolderRow {
    pub id: i64,
    pub name: String,
    pub parent_id: Option<i64>,
}

/// The parts of a folder row that decide when it can be inserted.
pub struct FolderLink {
    pub id: i64,
    pub parent_id: Option<i64>,
}

impl View for FolderRow {
    type V = FolderLink;

    open spec fn view(&self) -> FolderLink {
        FolderLink { id: self.id, parent_id: self.parent_id }
    }
}

pub open spec fn folder_links(v: Seq<FolderRow>) -> Seq<FolderLink> {
    v.map_values(|r: FolderRow| r@)
}

/// A folder can be inserted once it has no parent or its parent has been.
pub open spec fn ready(f: FolderLink, known: Seq<i64>) -> bool {
    match f.parent_id {
        None => true,
        Some(p) => known.contains(p),
    }
}

/// One pass over the remaining rows (positions into `rows`), front to back:
/// each ready row is inserted at once, so a child after its parent in the
/// same pass is inserted in that pass too. Yields the inserted positions,
/// the positions left over, and the ids known afterwards.
pub open spec fn pass(rows: Seq<FolderLink>, rem: Seq<usize>, known: Seq<i64>) -> (
    Seq<usize>,
    Seq<usize>,
    Seq<i64>,
)
    decreases rem.len(),
{
    if rem.len() == 0 {
        (Seq::empty(), Seq::empty(), known)
    } else {
        let f = rows[rem[0] as int];
        if ready(f, known) {
            let (ins, left, k) = pass(rows, rem.drop_first(), known.push(f.id));
            (seq![rem[0]] + ins, left, k)
        } else {
            let (ins, left, k) = pass(rows, rem.drop_first(), known);
            (ins, seq![rem[0]] + left, k)
        }
    }
}

pub proof fn lemma_pass_len(rows: Seq<FolderLink>, rem: Seq<usize>, known: Seq<i64>)
    ensures
        pass(rows, rem, known).0.len() + pass(rows, rem, known).1.len() == rem.len(),
    decreases rem.len(),
{
    if rem.len() > 0 {
        let f = rows[rem[0] as int];
        if ready(f, known) {
            lemma_pass_len(rows, rem.drop_first(), known.push(f.id));
        } else {
            lemma_pass_len(rows, rem.drop_first(), known);
        }
    }
}

/// The positions of `rows` in the order they are inserted: pass after pass
/// over what is left, stopping when nothing is left or a pass inserts
/// nothing (rows whose parent never appears are never inserted).
pub open spec fn insertion_order(rows: Seq<FolderLink>, rem: Seq<usize>, known: Seq<i64>) -> Seq<
    usize,
>
    decreases rem.len(),
{
    if rem.len() == 0 {
        Seq::empty()
    } else {
        let (ins, left, k) = pass(rows, rem, known);
        if ins.len() == 0 {
            Seq::empty()
        } else {
            proof {
                lemma_pass_len(rows, rem, known);
            }
            ins + insertion_order(rows, left, k)
        }
    }
}

/// All positions of `rows`, in order.
pub open spec fn all_positions(n: nat) -> Seq<usize> {
    Seq::new(n, |i: int| i as usize)
}

/// Whether `known` holds `id`.
fn holds_id(known: &Vec<i64>, id: i64) -> (r: bool)
    ensures
        r == known@.contains(id),
{
    let mut i: usize = 0;
    while i < known.len()
        invariant
            i <= known.len(),
            forall|j: int| 0 <= j < i ==> known@[j] != id,
        decreases known.len() - i,
    {
        if known[i] == id {
            assert(known@[i as int] == id);
            return true;
        }
        i += 1;
    }
    false
}

/// The order in which to insert the legacy folders as notes so that every
/// folder comes after its parent, whatever order the rows came in; folders
/// whose parent never appears (missing, or in a cycle) are left out.
pub fn folder_insert_order(rows: &Vec<FolderRow>) -> (r: Vec<usize>)
    ensures
        r@ == insertion_order(folder_links(rows@), all_positions(rows.len() as nat), Seq::empty()),
{
    let ghost links = folder_links(rows@);
    let ghost goal = insertion_order(links, all_positions(rows.len() as nat), Seq::empty());
    let mut remaining: Vec<usize> = Vec::new();
    let mut i: usize = 0;
    while i < rows.len()
        invariant
            i <= rows.len(),
            remaining@ =~= all_positions(rows.len() as nat).take(i as int),
        decreases rows.len() - i,
    {
        remaining.push(i);
        i += 1;
    }
    assert(all_positions(rows.len() as nat).take(rows.len() as int) =~= all_positions(
        rows.len() as nat,
    ));
    let mut known: Vec<i64> = Vec::new();
    let mut out: Vec<usize> = Vec::new();
    assert(out@ + insertion_order(links, remaining@, known@) =~= goal);
    while remaining.len() > 0
        invariant
            links == folder_links(rows@),
            goal == insertion_order(links, all_positions(rows.len() as nat), Seq::empty()),
            forall|k: int| 0 <= k < remaining.len() ==> #[trigger] remaining@[k] < rows.len(),
            out@ + insertion_order(links, remaining@, known@) == goal,
        decreases remaining.len(),
    {
        let ghost rem0 = remaining@;
        let ghost known0 = known@;
        let ghost out0 = out@;
        let mut left: Vec<usize> = Vec::new();
        let mut progressed = false;
        let mut j: usize = 0;
        assert(rem0.skip(0) =~= rem0);
        assert(out@ =~= out0 + Seq::<usize>::empty());
        while j < remaining.len()
            invariant
                links == folder_links(rows@),
                remaining@ == rem0,
                j <= remaining.len(),
                forall|k: int| 0 <= k < remaining.len() ==> #[trigger] remaining@[k] < rows.len(),
                forall|k: int| 0 <= k < left.len() ==> #[trigger] left@[k] < rows.len(),
                progressed == (out@.len() > out0.len()),
                out@.len() >= out0.len(),
                ({
                    let whole = pass(links, rem0, known0);
                    let rest = pass(links, rem0.skip(j as int), known@);
                    &&& whole.0 == out@.subrange(out0.len() as int, out@.len() as int) + rest.0
                    &&& whole.1 == left@ + rest.1
                    &&& whole.2 == rest.2
                }),
                out@.take(out0.len() as int) == out0,
            decreases remaining.len() - j,
        {
            let idx = remaining[j];
            let row = &rows[idx];
            assert(links[idx as int] == row@);
            let is_ready = match row.parent_id {
                None => true,
                Some(p) => holds_id(&known, p),
            };
            assert(rem0.skip(j as int).drop_first() =~= rem0.skip(j + 1));
            assert(rem0.skip(j as int)[0] == idx);
            if is_ready {
                let ghost before = out@;
                out.push(idx);
                known.push(row.id);
                progressed = true;
                assert(out@.subrange(out0.len() as int, out@.len() as int) =~= before.subrange(
                    out0.len() as int,
                    before.len() as int,
                ) + seq![idx]);
                assert(out@.take(out0.len() as int) =~= before.take(out0.len() as int));
            } else {
                let ghost lbefore = left@;
                left.push(idx);
                assert(left@ =~= lbefore + seq![idx]);
            }
            j += 1;
        }
        assert(rem0.skip(remaining.len() as int) =~= Seq::<usize>::empty());
        let ghost whole = pass(links, rem0, known0);
        assert(whole.0 =~= out@.subrange(out0.len() as int, out@.len() as int));
        assert(whole.1 =~= left@);
        proof {
            lemma_pass_len(links, rem0, known0);
        }
        assert(out@ =~= out0 + whole.0);
        remaining = left;
        if !progressed {
            assert(insertion_order(links, rem0, known0) =~= Seq::<usize>::empty());
            assert(out0 + Seq::<usize>::empty() =~= out0);
            assert(out@ =~= out@.take(out0.len() as int));
            assert(out@ =~= out0);
            return out;
        }
        assert(insertion_order(links, rem0, known0) == whole.0 + insertion_order(
            links,
            left@,
            known@,
        ));
        assert(out@ + insertion_order(links, remaining@, known@) =~= out0 + insertion_order(
            links,
            rem0,
            known0,
        ));
    }
    assert(insertion_order(links, remaining@, known@) =~= Seq::<usize>::empty());
    assert(out@ + Seq::<usize>::empty() =~= out@);
    out
}

} // verus!

verus! {

/// The ids of the rows at positions `s`.
pub open spec fn ids_at(rows: Seq<FolderLink>, s: Seq<usize>) -> Seq<i64> {
    Seq::new(s.len(), |k: int| rows[s[k] as int].id)
}

/// No position occurs twice.
pub open spec fn no_repeats(s: Seq<usize>) -> bool {
    forall|a: int, b: int| 0 <= a < b < s.len() ==> s[a] != s[b]
}

/// Every position is a position of `rows`.
pub open spec fn in_range(rows: Seq<FolderLink>, s: Seq<usize>) -> bool {
    forall|a: int| 0 <= a < s.len() ==> #[trigger] s[a] < rows.len()
}

proof fn lemma_ready_monotone(f: FolderLink, small: Seq<i64>, big: Seq<i64>)
    requires
        ready(f, small),
        forall|x: i64| small.contains(x) ==> big.contains(x),
    ensures
        ready(f, big),
{
}

proof fn lemma_ids_cons(rows: Seq<FolderLink>, known: Seq<i64>, x: usize, s: Seq<usize>, k: int)
    requires
        0 <= k <= s.len(),
    ensures
        known.push(rows[x as int].id) + ids_at(rows, s.take(k)) == known + ids_at(
            rows,
            (seq![x] + s).take(k + 1),
        ),
{
    assert(known.push(rows[x as int].id) + ids_at(rows, s.take(k)) =~= known + ids_at(
        rows,
        (seq![x] + s).take(k + 1),
    ));
}

/// What one pass does: each inserted row was ready when reached, the ids
/// known afterwards are the old ones plus those inserted, every remaining
/// position goes to exactly one side, and no row left over is ready even
/// with the ids known before the pass.
proof fn lemma_pass(rows: Seq<FolderLink>, rem: Seq<usize>, known: Seq<i64>)
    requires
        in_range(rows, rem),
    ensures
        ({
            let (ins, left, k) = pass(rows, rem, known);
            &&& forall|j: int|
                0 <= j < ins.len() ==> ready(
                    rows[#[trigger] ins[j] as int],
                    known + ids_at(rows, ins.take(j)),
                )
            &&& k == known + ids_at(rows, ins)
            &&& forall|x: usize| #[trigger] rem.contains(x) <==> (ins.contains(x) || left.contains(x))
            &&& forall|j: int| 0 <= j < left.len() ==> !ready(rows[#[trigger] left[j] as int], known)
            &&& in_range(rows, ins)
            &&& in_range(rows, left)
            &&& no_repeats(rem) ==> no_repeats(ins) && no_repeats(left) && forall|x: usize|
                !(#[trigger] ins.contains(x) && left.contains(x))
        }),
    decreases rem.len(),
{
    if rem.len() == 0 {
        assert(known + ids_at(rows, Seq::<usize>::empty()) =~= known);
    } else {
        let x = rem[0];
        let f = rows[x as int];
        let tail = rem.drop_first();
        assert(in_range(rows, tail));
        if ready(f, known) {
            let known2 = known.push(f.id);
            lemma_pass(rows, tail, known2);
            let (ins2, left, k) = pass(rows, tail, known2);
            let ins = seq![x] + ins2;
            assert forall|j: int| 0 <= j < ins.len() implies ready(
                rows[#[trigger] ins[j] as int],
                known + ids_at(rows, ins.take(j)),
            ) by {
                if j == 0 {
                    assert(known + ids_at(rows, ins.take(0)) =~= known);
                } else {
                    assert(ins[j] == ins2[j - 1]);
                    lemma_ids_cons(rows, known, x, ins2, j - 1);
                    assert(ins.take(j) =~= (seq![x] + ins2).take(j));
                }
            }
            assert(k =~= known + ids_at(rows, ins)) by {
                assert(known2 + ids_at(rows, ins2) =~= known + ids_at(rows, ins));
            }
            assert forall|x2: usize| #[trigger] rem.contains(x2) <==> (ins.contains(x2)
                || left.contains(x2)) by {
                if rem.contains(x2) {
                    let j = choose|j: int| 0 <= j < rem.len() && rem[j] == x2;
                    if j == 0 {
                        assert(ins[0] == x2);
                    } else {
                        assert(tail[j - 1] == x2);
                        assert(tail.contains(x2));
                        if ins2.contains(x2) {
                            let m = choose|m: int| 0 <= m < ins2.len() && ins2[m] == x2;
                            assert(ins[m + 1] == x2);
                        }
                    }
                }
                if ins.contains(x2) {
                    let m = choose|m: int| 0 <= m < ins.len() && ins[m] == x2;
                    if m == 0 {
                        assert(rem[0] == x2);
                    } else {
                        assert(ins2[m - 1] == x2);
                        assert(ins2.contains(x2));
                        assert(tail.contains(x2));
                        let j = choose|j: int| 0 <= j < tail.len() && tail[j] == x2;
                        assert(rem[j + 1] == x2);
                    }
                }
                if left.contains(x2) {
                    assert(tail.contains(x2));
                    let j = choose|j: int| 0 <= j < tail.len() && tail[j] == x2;
                    assert(rem[j + 1] == x2);
                }
            }
            assert forall|j: int| 0 <= j < left.len() implies !ready(
                rows[#[trigger] left[j] as int],
                known,
            ) by {
                if ready(rows[left[j] as int], known) {
                    assert forall|y: i64| known.contains(y) implies known2.contains(y) by {
                        let m = choose|m: int| 0 <= m < known.len() && known[m] == y;
                        assert(known2[m] == y);
                    }
                    lemma_ready_monotone(rows[left[j] as int], known, known2);
                }
            }
            assert(in_range(rows, ins));
            if no_repeats(rem) {
                assert(no_repeats(tail));
                assert(!tail.contains(x)) by {
                    if tail.contains(x) {
                        let j = choose|j: int| 0 <= j < tail.len() && tail[j] == x;
                        assert(rem[j + 1] == rem[0]);
                    }
                }
                assert forall|a: int, b: int| 0 <= a < b < ins.len() implies ins[a] != ins[b] by {
                    if a == 0 {
                        assert(ins2[b - 1] == ins[b]);
                        assert(ins2.contains(ins[b]));
                    } else {
                        assert(ins2[a - 1] != ins2[b - 1]);
                    }
                }
                assert forall|x2: usize| !(#[trigger] ins.contains(x2) && left.contains(x2)) by {
                    if ins.contains(x2) && left.contains(x2) {
                        let m = choose|m: int| 0 <= m < ins.len() && ins[m] == x2;
                        if m == 0 {
                            assert(tail.contains(x2));
                        } else {
                            assert(ins2[m - 1] == x2);
                            assert(ins2.contains(x2));
                        }
                    }
                }
            }
        } else {
            lemma_pass(rows, tail, known);
            let (ins, left2, k) = pass(rows, tail, known);
            let left = seq![x] + left2;
            assert forall|x2: usize| #[trigger] rem.contains(x2) <==> (ins.contains(x2)
                || left.contains(x2)) by {
                if rem.contains(x2) {
                    let j = choose|j: int| 0 <= j < rem.len() && rem[j] == x2;
                    if j == 0 {
                        assert(left[0] == x2);
                    } else {
                        assert(tail[j - 1] == x2);
                        assert(tail.contains(x2));
                        if left2.contains(x2) {
                            let m = choose|m: int| 0 <= m < left2.len() && left2[m] == x2;
                            assert(left[m + 1] == x2);
                        }
                    }
                }
                if left.contains(x2) {
                    let m = choose|m: int| 0 <= m < left.len() && left[m] == x2;
                    if m == 0 {
                        assert(rem[0] == x2);
                    } else {
                        assert(left2[m - 1] == x2);
                        assert(left2.contains(x2));
                        assert(tail.contains(x2));
                        let j = choose|j: int| 0 <= j < tail.len() && tail[j] == x2;
                        assert(rem[j + 1] == x2);
                    }
                }
                if ins.contains(x2) {
                    assert(tail.contains(x2));
                    let j = choose|j: int| 0 <= j < tail.len() && tail[j] == x2;
                    assert(rem[j + 1] == x2);
                }
            }
            assert forall|j: int| 0 <= j < left.len() implies !ready(
                rows[#[trigger] left[j] as int],
                known,
            ) by {
                if j > 0 {
                    assert(left[j] == left2[j - 1]);
                }
            }
            assert(in_range(rows, left));
            if no_repeats(rem) {
                assert(no_repeats(tail));
                assert(!tail.contains(x)) by {
                    if tail.contains(x) {
                        let j = choose|j: int| 0 <= j < tail.len() && tail[j] == x;
                        assert(rem[j + 1] == rem[0]);
                    }
                }
                assert forall|a: int, b: int| 0 <= a < b < left.len() implies left[a]
                    != left[b] by {
                    if a == 0 {
                        assert(left2[b - 1] == left[b]);
                        assert(left2.contains(left[b]));
                    } else {
                        assert(left2[a - 1] != left2[b - 1]);
                    }
                }
                assert forall|x2: usize| !(#[trigger] ins.contains(x2) && left.contains(x2)) by {
                    if ins.contains(x2) && left.contains(x2) {
                        let m = choose|m: int| 0 <= m < left.len() && left[m] == x2;
                        if m == 0 {
                            assert(tail.contains(x2));
                        } else {
                            assert(left2[m - 1] == x2);
                            assert(left2.contains(x2));
                        }
                    }
                }
            }
        }
    }
}

} // verus!

verus! {

/// What the passes achieve together, from any starting point.
proof fn lemma_insertion_order(rows: Seq<FolderLink>, rem: Seq<usize>, known: Seq<i64>)
    requires
        in_range(rows, rem),
    ensures
        ({
            let o = insertion_order(rows, rem, known);
            &&& forall|j: int|
                0 <= j < o.len() ==> ready(
                    rows[#[trigger] o[j] as int],
                    known + ids_at(rows, o.take(j)),
                )
            &&& forall|x: usize|
                #[trigger] rem.contains(x) && !o.contains(x) ==> !ready(
                    rows[x as int],
                    known + ids_at(rows, o),
                )
            &&& forall|x: usize| #[trigger] o.contains(x) ==> rem.contains(x)
            &&& in_range(rows, o)
            &&& no_repeats(rem) ==> no_repeats(o)
        }),
    decreases rem.len(),
{
    let o = insertion_order(rows, rem, known);
    if rem.len() > 0 {
        lemma_pass(rows, rem, known);
        let (ins, left, k) = pass(rows, rem, known);
        if ins.len() == 0 {
            assert(known + ids_at(rows, o) =~= known);
            assert forall|x: usize| #[trigger] rem.contains(x) && !o.contains(x) implies !ready(
                rows[x as int],
                known + ids_at(rows, o),
            ) by {
                assert(left.contains(x));
                let j = choose|j: int| 0 <= j < left.len() && left[j] == x;
                assert(!ready(rows[left[j] as int], known));
            }
        } else {
            lemma_pass_len(rows, rem, known);
            lemma_insertion_order(rows, left, k);
            let o2 = insertion_order(rows, left, k);
            assert(o == ins + o2);
            assert forall|j: int| 0 <= j < o.len() implies ready(
                rows[#[trigger] o[j] as int],
                known + ids_at(rows, o.take(j)),
            ) by {
                if j < ins.len() {
                    assert(o.take(j) =~= ins.take(j));
                    assert(o[j] == ins[j]);
                } else {
                    let j2 = j - ins.len();
                    assert(o[j] == o2[j2]);
                    assert(k + ids_at(rows, o2.take(j2)) =~= known + ids_at(rows, o.take(j)));
                }
            }
            assert(k + ids_at(rows, o2) =~= known + ids_at(rows, o));
            assert forall|x: usize| #[trigger] rem.contains(x) && !o.contains(x) implies !ready(
                rows[x as int],
                known + ids_at(rows, o),
            ) by {
                if ins.contains(x) {
                    let m = choose|m: int| 0 <= m < ins.len() && ins[m] == x;
                    assert(o[m] == x);
                }
                if o2.contains(x) {
                    let m = choose|m: int| 0 <= m < o2.len() && o2[m] == x;
                    assert(o[m + ins.len()] == x);
                }
                assert(left.contains(x));
            }
            assert forall|x: usize| #[trigger] o.contains(x) implies rem.contains(x) by {
                let m = choose|m: int| 0 <= m < o.len() && o[m] == x;
                if m < ins.len() {
                    assert(ins[m] == x);
                    assert(ins.contains(x));
                } else {
                    assert(o2[m - ins.len()] == x);
                    assert(o2.contains(x));
                    assert(left.contains(x));
                }
            }
            assert(in_range(rows, o)) by {
                assert forall|a: int| 0 <= a < o.len() implies #[trigger] o[a] < rows.len() by {
                    if a < ins.len() {
                        assert(o[a] == ins[a]);
                    } else {
                        assert(o[a] == o2[a - ins.len()]);
                    }
                }
            }
            if no_repeats(rem) {
                assert forall|a: int, b: int| 0 <= a < b < o.len() implies o[a] != o[b] by {
                    if b < ins.len() {
                        assert(ins[a] != ins[b]);
                    } else if a >= ins.len() {
                        assert(o2[a - ins.len()] != o2[b - ins.len()]);
                    } else {
                        assert(o[a] == ins[a]);
                        assert(ins.contains(o[a]));
                        assert(o2[b - ins.len()] == o[b]);
                        assert(o2.contains(o[b]));
                        assert(left.contains(o[b]));
                    }
                }
            }
        }
    }
}

/// The folder migration inserts every folder after its parent, inserts no
/// folder twice, and leaves a folder out only when its parent is never
/// inserted (a dangling parent id or a cycle).
pub proof fn law_parents_before_children(rows: Seq<FolderLink>)
    requires
        rows.len() <= usize::MAX,
    ensures
        ({
            let o = insertion_order(rows, all_positions(rows.len()), Seq::empty());
            &&& forall|j: int|
                0 <= j < o.len() ==> match rows[#[trigger] o[j] as int].parent_id {
                    None => true,
                    Some(p) => exists|i: int| 0 <= i < j && rows[o[i] as int].id == p,
                }
            &&& no_repeats(o)
            &&& in_range(rows, o)
            &&& forall|x: usize|
                x < rows.len() && !(#[trigger] o.contains(x)) ==> match rows[x as int].parent_id {
                    None => false,
                    Some(p) => !exists|i: int| 0 <= i < o.len() && rows[o[i] as int].id == p,
                }
        }),
{
    let all = all_positions(rows.len());
    let known = Seq::<i64>::empty();
    assert(in_range(rows, all));
    assert forall|a: int, b: int| 0 <= a < b < all.len() implies all[a] != all[b] by {
        assert(all[a] == a as usize && all[b] == b as usize);
    }
    lemma_insertion_order(rows, all, known);
    let o = insertion_order(rows, all, known);
    assert forall|j: int| 0 <= j < o.len() implies match rows[#[trigger] o[j] as int].parent_id {
        None => true,
        Some(p) => exists|i: int| 0 <= i < j && rows[o[i] as int].id == p,
    } by {
        assert(ready(rows[o[j] as int], known + ids_at(rows, o.take(j))));
        assert(known + ids_at(rows, o.take(j)) =~= ids_at(rows, o.take(j)));
        if let Some(p) = rows[o[j] as int].parent_id {
            let m = choose|m: int| 0 <= m < j && ids_at(rows, o.take(j))[m] == p;
            assert(rows[o[m] as int].id == p);
        }
    }
    assert forall|x: usize| x < rows.len() && !(#[trigger] o.contains(x)) implies match rows[
        x as int
    ].parent_id {
        None => false,
        Some(p) => !exists|i: int| 0 <= i < o.len() && rows[o[i] as int].id == p,
    } by {
        assert(all[x as int] == x);
        assert(all.contains(x));
        assert(known + ids_at(rows, o) =~= ids_at(rows, o));
        if let Some(p) = rows[x as int].parent_id {
            if exists|i: int| 0 <= i < o.len() && rows[o[i] as int].id == p {
                let i = choose|i: int| 0 <= i < o.len() && rows[o[i] as int].id == p;
                assert(ids_at(rows, o)[i] == p);
            }
        }
    }
}

} // verus!
