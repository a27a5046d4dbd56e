//! Lexicographic order on character sequences (the order of `str`'s `Ord`,
//! since UTF-8 keeps code-point order) and a stable sort by such keys.
use vstd::prelude::*;

verus! {

/// `a` comes strictly before `b` in lexicographic code-point order.
pub open spec fn seq_less(a: Seq<char>, b: Seq<char>) -> bool
    decreases a.len(),
{
    if a.len() == 0 {
        b.len() > 0
    } else if b.len() == 0 {
        false
    } else if a[0] != b[0] {
        (a[0] as u32) < (b[0] as u32)
    } else {
        seq_less(a.drop_first(), b.drop_first())
    }
}

/// Nothing comes before itself, and two distinct sequences are ordered one
/// way or the other, never both.
pub proof fn lemma_less_total(a: Seq<char>, b: Seq<char>)
    ensures
        !seq_less(a, a),
        a != b ==> (seq_less(a, b) || seq_less(b, a)),
        !(seq_less(a, b) && seq_less(b, a)),
    decreases a.len(),
{
    if a.len() > 0 {
        lemma_less_total(a.drop_first(), a.drop_first());
        if b.len() > 0 && a[0] == b[0] {
            lemma_less_total(a.drop_first(), b.drop_first());
            if a != b {
                assert(a.drop_first() != b.drop_first()) by {
                    if a.drop_first() == b.drop_first() {
                        assert(a =~= seq![a[0]] + a.drop_first());
                        assert(b =~= seq![b[0]] + b.drop_first());
                    }
                }
            }
        }
    } else {
        if b.len() == 0 {
            assert(a =~= b);
        }
    }
    if b.len() > 0 && a.len() > 0 && a[0] != b[0] {
        vstd::utf8::char_u32_cast(a[0], a[0] as u32);
        vstd::utf8::char_u32_cast(b[0], b[0] as u32);
        assert((a[0] as u32) != (b[0] as u32));
    }
}

/// The order is transitive.
pub proof fn lemma_less_trans(a: Seq<char>, b: Seq<char>, c: Seq<char>)
    requires
        seq_less(a, b),
        seq_less(b, c),
    ensures
        seq_less(a, c),
    decreases a.len(),
{
    if a.len() > 0 && b.len() > 0 && c.len() > 0 && a[0] == b[0] && b[0] == c[0] {
        lemma_less_trans(a.drop_first(), b.drop_first(), c.drop_first());
    }
}

/// Whether `a` comes strictly before `b`.
pub fn chars_less(a: &Vec<char>, b: &Vec<char>) -> (r: bool)
    ensures
        r == seq_less(a@, b@),
{
    let mut i: usize = 0;
    assert(a@.skip(0) =~= a@);
    assert(b@.skip(0) =~= b@);
    while i < a.len() && i < b.len() && a[i] == b[i]
        invariant
            i <= a.len(),
            i <= b.len(),
            seq_less(a@, b@) == seq_less(a@.skip(i as int), b@.skip(i as int)),
        decreases a.len() - i,
    {
        assert(a@.skip(i as int).drop_first() =~= a@.skip(i + 1));
        assert(b@.skip(i as int).drop_first() =~= b@.skip(i + 1));
        i += 1;
    }
    if i == a.len() {
        i < b.len()
    } else if i == b.len() {
        false
    } else {
        assert(a@.skip(i as int)[0] == a@[i as int]);
        assert(b@.skip(i as int)[0] == b@[i as int]);
        (a[i] as u32) < (b[i] as u32)
    }
}

/// Item `x` goes before item `y` when sorting by `keys`, ascending or
/// descending, with ties kept in their original order.
pub open spec fn key_before(keys: Seq<Seq<char>>, x: int, y: int, descending: bool) -> bool {
    ||| (if descending { seq_less(keys[y], keys[x]) } else { seq_less(keys[x], keys[y]) })
    ||| (keys[x] == keys[y] && x < y)
}

/// `order` lists every position of `keys` once, sorted by key with ties in
/// their original order (the result of a stable sort).
pub open spec fn is_stable_order(keys: Seq<Seq<char>>, order: Seq<usize>, descending: bool) -> bool {
    &&& order.len() == keys.len()
    &&& forall|a: int| 0 <= a < order.len() ==> #[trigger] order[a] < keys.len()
    &&& forall|a: int, b: int|
        0 <= a < b < order.len() ==> key_before(
            keys,
            #[trigger] order[a] as int,
            #[trigger] order[b] as int,
            descending,
        )
}

/// The views of a vector of char vectors.
pub open spec fn key_views(v: Seq<Vec<char>>) -> Seq<Seq<char>> {
    v.map_values(|x: Vec<char>| x@)
}

/// Whether the key at `x` sorts strictly before the key at `y`.
fn strictly_before(keys: &Vec<Vec<char>>, x: usize, y: usize, descending: bool) -> (r: bool)
    requires
        x < keys.len(),
        y < keys.len(),
    ensures
        r == (if descending {
            seq_less(key_views(keys@)[y as int], key_views(keys@)[x as int])
        } else {
            seq_less(key_views(keys@)[x as int], key_views(keys@)[y as int])
        }),
{
    if descending {
        chars_less(&keys[y], &keys[x])
    } else {
        chars_less(&keys[x], &keys[y])
    }
}

/// The positions of `keys` in stably sorted order.
pub fn stable_order(keys: &Vec<Vec<char>>, descending: bool) -> (r: Vec<usize>)
    ensures
        is_stable_order(key_views(keys@), r@, descending),
{
    let ghost kv = key_views(keys@);
    let mut out: Vec<usize> = Vec::new();
    let mut i: usize = 0;
    while i < keys.len()
        invariant
            i <= keys.len(),
            kv == key_views(keys@),
            out.len() == i,
            forall|a: int| 0 <= a < out.len() ==> #[trigger] out@[a] < i,
            forall|a: int, b: int|
                0 <= a < b < out.len() ==> key_before(
                    kv,
                    #[trigger] out@[a] as int,
                    #[trigger] out@[b] as int,
                    descending,
                ),
        decreases keys.len() - i,
    {
        let mut p: usize = 0;
        while p < out.len() && !strictly_before(keys, i, out[p], descending)
            invariant
                p <= out.len(),
                i < keys.len(),
                kv == key_views(keys@),
                forall|a: int| 0 <= a < out.len() ==> #[trigger] out@[a] < i,
                forall|k: int|
                    0 <= k < p ==> !(if descending {
                        seq_less(kv[#[trigger] out@[k] as int], kv[i as int])
                    } else {
                        seq_less(kv[i as int], kv[#[trigger] out@[k] as int])
                    }),
            decreases out.len() - p,
        {
            p += 1;
        }
        let ghost old_out = out@;
        out.insert(p, i);
        proof {
            let ii = i as int;
            assert forall|a: int, b: int| 0 <= a < b < out.len() implies key_before(
                kv,
                #[trigger] out@[a] as int,
                #[trigger] out@[b] as int,
                descending,
            ) by {
                if a < p && b < p {
                    assert(out@[a] == old_out[a] && out@[b] == old_out[b]);
                } else if a > p && b > p {
                    assert(out@[a] == old_out[a - 1] && out@[b] == old_out[b - 1]);
                } else if a < p && b > p {
                    assert(out@[a] == old_out[a] && out@[b] == old_out[b - 1]);
                } else if a == p {
                    let y = old_out[b - 1] as int;
                    let q = old_out[p as int] as int;
                    assert(out@[b] == old_out[b - 1]);
                    lemma_less_total(kv[q], kv[y]);
                    if b - 1 > p {
                        assert(key_before(kv, q, y, descending));
                    }
                    if descending {
                        assert(seq_less(kv[q], kv[ii]));
                        if seq_less(kv[y], kv[q]) {
                            lemma_less_trans(kv[y], kv[q], kv[ii]);
                        }
                    } else {
                        assert(seq_less(kv[ii], kv[q]));
                        if seq_less(kv[q], kv[y]) {
                            lemma_less_trans(kv[ii], kv[q], kv[y]);
                        }
                    }
                } else {
                    let x = old_out[a] as int;
                    assert(out@[a] == old_out[a]);
                    assert(out@[b] == i);
                    lemma_less_total(kv[x], kv[ii]);
                    assert(x < ii);
                }
            }
            assert forall|a: int| 0 <= a < out.len() implies #[trigger] out@[a] < i + 1 by {
                if a < p {
                    assert(out@[a] == old_out[a]);
                } else if a > p {
                    assert(out@[a] == old_out[a - 1]);
                }
            }
        }
        i += 1;
    }
    out
}

} // verus!
