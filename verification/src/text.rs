//! Character-sequence helpers shared by the rest of the library: conversions
//! between `String` and `Vec<char>`, trimming, substring search, splitting and
//! joining on a separator, line-ending normalisation and decimal rendering.
use vstd::prelude::*;

verus! {

/// `String::push` (std): appends the character to the end of the string and
/// changes nothing else, as its documentation says. Running out of memory is
/// not modelled.
pub assume_specification[ String::push ](s: &mut String, ch: char)
    ensures
        final(s)@ == old(s)@.push(ch),
;

// ---------------------------------------------------------------------------
// Specifications
// ---------------------------------------------------------------------------

/// Unicode `White_Space`, the property behind `char::is_whitespace`.
pub open spec fn is_whitespace(c: char) -> bool {
    let u = c as u32;
    ||| 0x09 <= u <= 0x0d
    ||| u == 0x20
    ||| u == 0x85
    ||| u == 0xa0
    ||| u == 0x1680
    ||| 0x2000 <= u <= 0x200a
    ||| u == 0x2028
    ||| u == 0x2029
    ||| u == 0x202f
    ||| u == 0x205f
    ||| u == 0x3000
}

/// `s` without its leading whitespace.
pub open spec fn trim_start(s: Seq<char>) -> Seq<char>
    decreases s.len(),
{
    if s.len() > 0 && is_whitespace(s[0]) {
        trim_start(s.drop_first())
    } else {
        s
    }
}

/// `s` without its trailing whitespace.
pub open spec fn trim_end(s: Seq<char>) -> Seq<char>
    decreases s.len(),
{
    if s.len() > 0 && is_whitespace(s.last()) {
        trim_end(s.drop_last())
    } else {
        s
    }
}

/// `s` without leading and trailing whitespace (what `str::trim` gives).
pub open spec fn trim(s: Seq<char>) -> Seq<char> {
    trim_end(trim_start(s))
}

/// `needle` occurs somewhere in `hay`.
pub open spec fn contains_seq(hay: Seq<char>, needle: Seq<char>) -> bool {
    exists|i: int|
        0 <= i && i + needle.len() <= hay.len() && #[trigger] hay.subrange(i, i + needle.len())
            == needle
}

/// `c` occurs in `s`.
pub open spec fn contains_char(s: Seq<char>, c: char) -> bool {
    exists|i: int| 0 <= i < s.len() && s[i] == c
}

/// `p` is a prefix of `s`.
pub open spec fn has_prefix(s: Seq<char>, p: Seq<char>) -> bool {
    p.len() <= s.len() && s.take(p.len() as int) == p
}

/// `p` is a suffix of `s`.
pub open spec fn has_suffix(s: Seq<char>, p: Seq<char>) -> bool {
    p.len() <= s.len() && s.skip(s.len() - p.len()) == p
}

/// The pieces of `s` between occurrences of `sep` (what `str::split` with a
/// `char` pattern yields): one more piece than there are separators.
pub open spec fn split_on(s: Seq<char>, sep: char) -> Seq<Seq<char>>
    decreases s.len(),
{
    if s.len() == 0 {
        seq![Seq::empty()]
    } else {
        let prev = split_on(s.drop_last(), sep);
        if s.last() == sep {
            prev.push(Seq::empty())
        } else {
            prev.update(prev.len() - 1, prev.last().push(s.last()))
        }
    }
}

/// The pieces concatenated with `sep` between consecutive ones.
pub open spec fn join_with(parts: Seq<Seq<char>>, sep: char) -> Seq<char>
    decreases parts.len(),
{
    if parts.len() == 0 {
        Seq::empty()
    } else if parts.len() == 1 {
        parts[0]
    } else {
        join_with(parts.drop_last(), sep).push(sep) + parts.last()
    }
}

/// Every `"\r\n"` replaced by `"\n"`, scanning left to right (what
/// `str::replace("\r\n", "\n")` gives).
pub open spec fn crlf_to_lf(s: Seq<char>) -> Seq<char>
    decreases s.len(),
{
    if s.len() == 0 {
        s
    } else if s.len() >= 2 && s[0] == '\r' && s[1] == '\n' {
        seq!['\n'] + crlf_to_lf(s.skip(2))
    } else {
        seq![s[0]] + crlf_to_lf(s.skip(1))
    }
}

/// Every `"\n"` replaced by `"\r\n"` (what `str::replace("\n", "\r\n")`
/// gives).
pub open spec fn lf_to_crlf(s: Seq<char>) -> Seq<char>
    decreases s.len(),
{
    if s.len() == 0 {
        s
    } else if s[0] == '\n' {
        seq!['\r', '\n'] + lf_to_crlf(s.skip(1))
    } else {
        seq![s[0]] + lf_to_crlf(s.skip(1))
    }
}

/// A text without carriage returns is left as it is by `crlf_to_lf`, and
/// `crlf_to_lf` undoes `lf_to_crlf` on it.
pub proof fn lemma_crlf_round_trip(s: Seq<char>)
    requires
        !s.contains('\r'),
    ensures
        crlf_to_lf(s) == s,
        crlf_to_lf(lf_to_crlf(s)) == s,
    decreases s.len(),
{
    if s.len() > 0 {
        let t = s.skip(1);
        assert(!t.contains('\r')) by {
            if t.contains('\r') {
                let k = choose|k: int| 0 <= k < t.len() && t[k] == '\r';
                assert(s[k + 1] == '\r');
            }
        }
        lemma_crlf_round_trip(t);
        assert(s[0] != '\r');
        assert(s =~= seq![s[0]] + t);
        let x = lf_to_crlf(s);
        if s[0] == '\n' {
            assert(x.skip(2) =~= lf_to_crlf(t));
            assert(crlf_to_lf(x) == seq!['\n'] + crlf_to_lf(x.skip(2)));
        } else {
            assert(x.skip(1) =~= lf_to_crlf(t));
            assert(crlf_to_lf(x) == seq![s[0]] + crlf_to_lf(x.skip(1)));
        }
    }
}

/// The decimal digit for `d < 10`.
pub open spec fn digit_char(d: nat) -> char {
    if d == 0 { '0' }
    else if d == 1 { '1' }
    else if d == 2 { '2' }
    else if d == 3 { '3' }
    else if d == 4 { '4' }
    else if d == 5 { '5' }
    else if d == 6 { '6' }
    else if d == 7 { '7' }
    else if d == 8 { '8' }
    else { '9' }
}

/// `n` in decimal without leading zeros (what `u32::to_string` gives).
pub open spec fn decimal(n: nat) -> Seq<char>
    decreases n,
{
    if n < 10 {
        seq![digit_char(n)]
    } else {
        decimal(n / 10).push(digit_char(n % 10))
    }
}

/// ASCII letters `A`-`Z` mapped to lower case, every other char kept
/// (what `char::to_ascii_lowercase` gives).
pub open spec fn ascii_lower(c: char) -> char {
    if 'A' <= c && c <= 'Z' {
        ((c as u32) + 32) as char
    } else {
        c
    }
}

/// `s` with `ascii_lower` applied to every char (what `str::to_ascii_lowercase` gives).
pub open spec fn ascii_lowercase(s: Seq<char>) -> Seq<char> {
    Seq::new(s.len(), |i: int| ascii_lower(s[i]))
}

// ---------------------------------------------------------------------------
// Lemmas
// ---------------------------------------------------------------------------

/// `split_on` always yields at least one piece.
pub proof fn lemma_split_nonempty(s: Seq<char>, sep: char)
    ensures
        split_on(s, sep).len() >= 1,
    decreases s.len(),
{
    if s.len() > 0 {
        lemma_split_nonempty(s.drop_last(), sep);
    }
}

/// Appending a char to the last piece appends it to the joined text.
pub proof fn lemma_join_extend_last(parts: Seq<Seq<char>>, sep: char, c: char)
    requires
        parts.len() >= 1,
    ensures
        join_with(parts.update(parts.len() - 1, parts.last().push(c)), sep) == join_with(
            parts,
            sep,
        ).push(c),
{
    let q = parts.update(parts.len() - 1, parts.last().push(c));
    if parts.len() > 1 {
        assert(q.drop_last() =~= parts.drop_last());
        assert(join_with(parts.drop_last(), sep).push(sep) + parts.last().push(c) =~= (
        join_with(parts.drop_last(), sep).push(sep) + parts.last()).push(c));
    }
}

/// Joining the pieces of a split gives the text back.
pub proof fn lemma_join_split(s: Seq<char>, sep: char)
    ensures
        join_with(split_on(s, sep), sep) == s,
    decreases s.len(),
{
    if s.len() > 0 {
        let prev = split_on(s.drop_last(), sep);
        lemma_join_split(s.drop_last(), sep);
        lemma_split_nonempty(s.drop_last(), sep);
        if s.last() == sep {
            let q = prev.push(Seq::<char>::empty());
            assert(q.drop_last() =~= prev);
            assert(join_with(q, sep) =~= s);
        } else {
            lemma_join_extend_last(prev, sep, s.last());
            assert(s.drop_last().push(s.last()) =~= s);
        }
    }
}

/// Pushing a further piece onto a non-empty list of pieces.
pub proof fn lemma_join_push(parts: Seq<Seq<char>>, sep: char, p: Seq<char>)
    requires
        parts.len() >= 1,
    ensures
        join_with(parts.push(p), sep) == join_with(parts, sep).push(sep) + p,
{
    assert(parts.push(p).drop_last() =~= parts);
}

// ---------------------------------------------------------------------------
// Executable helpers
// ---------------------------------------------------------------------------

/// The characters of `s`, in order.
pub fn chars_of(s: &str) -> (r: Vec<char>)
    ensures
        r@ == s@,
{
    let mut out: Vec<char> = Vec::new();
    for c in it: s.chars()
        invariant
            out@ == it.seq().take(it.index()),
            it.seq() == s@,
    {
        out.push(c);
    }
    out
}

/// A `String` holding exactly the characters of `v`.
pub fn string_of(v: &Vec<char>) -> (r: String)
    ensures
        r@ == v@,
{
    let mut out = String::new();
    let mut i: usize = 0;
    while i < v.len()
        invariant
            i <= v.len(),
            out@ == v@.take(i as int),
        decreases v.len() - i,
    {
        out.push(v[i]);
        assert(v@.take(i as int).push(v@[i as int]) == v@.take(i + 1));
        i += 1;
    }
    assert(v@.take(v.len() as int) == v@);
    out
}

/// Appends the characters of `s` to `out`.
pub fn push_str(out: &mut Vec<char>, s: &str)
    ensures
        final(out)@ == old(out)@ + s@,
{
    let cs = chars_of(s);
    append_chars(out, &cs);
}

/// Appends the characters of `cs` to `out`.
pub fn append_chars(out: &mut Vec<char>, cs: &Vec<char>)
    ensures
        final(out)@ == old(out)@ + cs@,
{
    let ghost start = out@;
    let mut i: usize = 0;
    while i < cs.len()
        invariant
            i <= cs.len(),
            out@ == start + cs@.take(i as int),
        decreases cs.len() - i,
    {
        out.push(cs[i]);
        assert(start + cs@.take(i as int) + seq![cs@[i as int]] =~= start + cs@.take(i + 1));
        i += 1;
    }
    assert(cs@.take(cs.len() as int) =~= cs@);
}

/// `s` followed by `t`, as a `String`.
pub fn concat_str(s: &str, t: &str) -> (r: String)
    ensures
        r@ == s@ + t@,
{
    let mut v = chars_of(s);
    push_str(&mut v, t);
    string_of(&v)
}

/// The characters of `v` from `lo` up to (not including) `hi`.
pub fn copy_range(v: &Vec<char>, lo: usize, hi: usize) -> (r: Vec<char>)
    requires
        lo <= hi <= v.len(),
    ensures
        r@ == v@.subrange(lo as int, hi as int),
{
    let mut out: Vec<char> = Vec::new();
    let mut i = lo;
    while i < hi
        invariant
            lo <= i <= hi <= v.len(),
            out@ == v@.subrange(lo as int, i as int),
        decreases hi - i,
    {
        out.push(v[i]);
        assert(v@.subrange(lo as int, i as int).push(v@[i as int]) =~= v@.subrange(
            lo as int,
            i + 1,
        ));
        i += 1;
    }
    out
}

/// Whether `c` is Unicode white space.
pub fn is_whitespace_char(c: char) -> (r: bool)
    ensures
        r == is_whitespace(c),
{
    let u = c as u32;
    (0x09 <= u && u <= 0x0d) || u == 0x20 || u == 0x85 || u == 0xa0 || u == 0x1680 || (0x2000 <= u
        && u <= 0x200a) || u == 0x2028 || u == 0x2029 || u == 0x202f || u == 0x205f || u == 0x3000
}

/// `s` without leading and trailing white space.
pub fn trim_chars(s: &Vec<char>) -> (r: Vec<char>)
    ensures
        r@ == trim(s@),
{
    let mut lo: usize = 0;
    assert(s@.skip(0) =~= s@);
    while lo < s.len() && is_whitespace_char(s[lo])
        invariant
            lo <= s.len(),
            trim_start(s@) == trim_start(s@.skip(lo as int)),
        decreases s.len() - lo,
    {
        assert(s@.skip(lo as int).drop_first() =~= s@.skip(lo + 1));
        lo += 1;
    }
    let ghost rest = s@.skip(lo as int);
    assert(trim_start(s@) == rest);
    let mut hi: usize = s.len();
    while hi > lo && is_whitespace_char(s[hi - 1])
        invariant
            lo <= hi <= s.len(),
            rest == s@.skip(lo as int),
            trim_end(rest) == trim_end(s@.subrange(lo as int, hi as int)),
        decreases hi - lo,
    {
        assert(s@.subrange(lo as int, hi as int).drop_last() =~= s@.subrange(
            lo as int,
            hi - 1,
        ));
        hi -= 1;
    }
    assert(rest =~= s@.subrange(lo as int, s.len() as int));
    copy_range(s, lo, hi)
}

/// Whether `needle` occurs in `hay`.
pub fn contains_chars(hay: &Vec<char>, needle: &Vec<char>) -> (r: bool)
    ensures
        r == contains_seq(hay@, needle@),
{
    if needle.len() > hay.len() {
        return false;
    }
    let last = hay.len() - needle.len();
    let mut i: usize = 0;
    while i <= last
        invariant
            last + needle.len() == hay.len(),
            i <= last + 1,
            forall|j: int|
                0 <= j < i ==> #[trigger] hay@.subrange(j, j + needle.len()) != needle@,
        decreases last + 1 - i,
    {
        let mut k: usize = 0;
        let mut same = true;
        while k < needle.len()
            invariant
                i <= last,
                last + needle.len() == hay.len(),
                k <= needle.len(),
                same == (forall|m: int| 0 <= m < k ==> hay@[i + m] == needle@[m]),
            decreases needle.len() - k,
        {
            if hay[i + k] != needle[k] {
                same = false;
            }
            k += 1;
        }
        if same {
            assert(hay@.subrange(i as int, i + needle.len()) =~= needle@);
            return true;
        }
        assert(hay@.subrange(i as int, i + needle.len()) != needle@) by {
            let m = choose|m: int| 0 <= m < needle.len() && hay@[i + m] != needle@[m];
            assert(hay@.subrange(i as int, i + needle.len())[m] != needle@[m]);
        }
        i += 1;
    }
    false
}

/// Whether `needle` occurs in `hay`.
pub fn contains_str(hay: &Vec<char>, needle: &str) -> (r: bool)
    ensures
        r == contains_seq(hay@, needle@),
{
    let n = chars_of(needle);
    contains_chars(hay, &n)
}

/// Whether `c` occurs in `s`.
pub fn has_char(s: &Vec<char>, c: char) -> (r: bool)
    ensures
        r == contains_char(s@, c),
{
    let mut i: usize = 0;
    while i < s.len()
        invariant
            i <= s.len(),
            forall|j: int| 0 <= j < i ==> s@[j] != c,
        decreases s.len() - i,
    {
        if s[i] == c {
            return true;
        }
        i += 1;
    }
    false
}

/// Whether `p` is a prefix of `s`.
pub fn starts_with_chars(s: &Vec<char>, p: &Vec<char>) -> (r: bool)
    ensures
        r == has_prefix(s@, p@),
{
    if p.len() > s.len() {
        return false;
    }
    let mut i: usize = 0;
    while i < p.len()
        invariant
            p.len() <= s.len(),
            i <= p.len(),
            forall|j: int| 0 <= j < i ==> s@[j] == p@[j],
        decreases p.len() - i,
    {
        if s[i] != p[i] {
            assert(s@.take(p.len() as int)[i as int] != p@[i as int]);
            return false;
        }
        i += 1;
    }
    assert(s@.take(p.len() as int) =~= p@);
    true
}

/// Whether `p` is a suffix of `s`.
pub fn ends_with_chars(s: &Vec<char>, p: &Vec<char>) -> (r: bool)
    ensures
        r == has_suffix(s@, p@),
{
    if p.len() > s.len() {
        return false;
    }
    let off = s.len() - p.len();
    let mut i: usize = 0;
    while i < p.len()
        invariant
            off + p.len() == s.len(),
            i <= p.len(),
            forall|j: int| 0 <= j < i ==> s@[off + j] == p@[j],
        decreases p.len() - i,
    {
        if s[off + i] != p[i] {
            assert(s@.skip(off as int)[i as int] != p@[i as int]);
            return false;
        }
        i += 1;
    }
    assert(s@.skip(off as int) =~= p@);
    true
}

/// `s` with every `"\r\n"` replaced by `"\n"`.
pub fn normalize_line_endings(s: &Vec<char>) -> (r: Vec<char>)
    ensures
        r@ == crlf_to_lf(s@),
{
    let mut out: Vec<char> = Vec::new();
    let mut i: usize = 0;
    assert(s@.skip(0) =~= s@);
    assert(out@ + crlf_to_lf(s@) =~= crlf_to_lf(s@));
    while i < s.len()
        invariant
            i <= s.len(),
            out@ + crlf_to_lf(s@.skip(i as int)) == crlf_to_lf(s@),
        decreases s.len() - i,
    {
        let ghost rest = s@.skip(i as int);
        if i + 1 < s.len() && s[i] == '\r' && s[i + 1] == '\n' {
            assert(rest.skip(2) =~= s@.skip(i + 2));
            assert(out@.push('\n') + crlf_to_lf(s@.skip(i + 2)) =~= out@ + crlf_to_lf(rest));
            out.push('\n');
            i += 2;
        } else {
            assert(rest.skip(1) =~= s@.skip(i + 1));
            assert(out@.push(s@[i as int]) + crlf_to_lf(s@.skip(i + 1)) =~= out@ + crlf_to_lf(
                rest,
            ));
            out.push(s[i]);
            i += 1;
        }
    }
    assert(s@.skip(i as int) =~= Seq::<char>::empty());
    assert(out@ + Seq::<char>::empty() =~= out@);
    out
}

/// The views of a vector of char vectors.
pub open spec fn views_of(v: Seq<Vec<char>>) -> Seq<Seq<char>> {
    v.map_values(|x: Vec<char>| x@)
}

/// `s` split at every occurrence of `sep`.
pub fn split_chars(s: &Vec<char>, sep: char) -> (r: Vec<Vec<char>>)
    ensures
        views_of(r@) == split_on(s@, sep),
{
    let mut done: Vec<Vec<char>> = Vec::new();
    let mut cur: Vec<char> = Vec::new();
    let mut i: usize = 0;
    while i < s.len()
        invariant
            i <= s.len(),
            views_of(done@).push(cur@) == split_on(s@.take(i as int), sep),
        decreases s.len() - i,
    {
        let ghost before = s@.take(i as int);
        assert(s@.take(i + 1).drop_last() =~= before);
        let c = s[i];
        if c == sep {
            let piece = cur;
            done.push(piece);
            cur = Vec::new();
            assert(views_of(done@) =~= views_of(done@.drop_last()).push(piece@));
            assert(views_of(done@).push(cur@) =~= split_on(before, sep).push(Seq::empty()));
        } else {
            let ghost prev = split_on(before, sep);
            cur.push(c);
            assert(views_of(done@).push(cur@) =~= prev.update(prev.len() - 1, prev.last().push(c)));
        }
        i += 1;
    }
    assert(s@.take(s.len() as int) =~= s@);
    let last = cur;
    done.push(last);
    assert(views_of(done@) =~= views_of(done@.drop_last()).push(last@));
    done
}

/// `parts` joined with `sep`.
pub fn join_chars(parts: &Vec<Vec<char>>, sep: char) -> (r: Vec<char>)
    ensures
        r@ == join_with(views_of(parts@), sep),
{
    let mut out: Vec<char> = Vec::new();
    let mut i: usize = 0;
    while i < parts.len()
        invariant
            i <= parts.len(),
            out@ == join_with(views_of(parts@).take(i as int), sep),
        decreases parts.len() - i,
    {
        let ghost pv = views_of(parts@);
        assert(pv.take(i + 1).drop_last() =~= pv.take(i as int));
        if i > 0 {
            out.push(sep);
        }
        append_chars(&mut out, &parts[i]);
        i += 1;
    }
    assert(views_of(parts@).take(parts.len() as int) =~= views_of(parts@));
    out
}

/// Appends the decimal rendering of `n` to `out`.
pub fn push_decimal(out: &mut Vec<char>, n: u32)
    ensures
        final(out)@ == old(out)@ + decimal(n as nat),
    decreases n,
{
    let ghost start = out@;
    if n >= 10 {
        push_decimal(out, n / 10);
    }
    let d = n % 10;
    let c = if d == 0 { '0' }
        else if d == 1 { '1' }
        else if d == 2 { '2' }
        else if d == 3 { '3' }
        else if d == 4 { '4' }
        else if d == 5 { '5' }
        else if d == 6 { '6' }
        else if d == 7 { '7' }
        else if d == 8 { '8' }
        else { '9' };
    out.push(c);
    if n >= 10 {
        assert(start + decimal(n as nat / 10) + seq![c] =~= start + decimal(n as nat));
    } else {
        assert(start + seq![c] =~= start + decimal(n as nat));
    }
}

/// `n` in decimal.
pub fn decimal_string(n: u32) -> (r: String)
    ensures
        r@ == decimal(n as nat),
{
    let mut v: Vec<char> = Vec::new();
    push_decimal(&mut v, n);
    assert(Seq::<char>::empty() + decimal(n as nat) =~= decimal(n as nat));
    string_of(&v)
}

/// `s` with ASCII capitals turned into lower case.
pub fn ascii_lowercase_chars(s: &Vec<char>) -> (r: Vec<char>)
    ensures
        r@ == ascii_lowercase(s@),
{
    let mut out: Vec<char> = Vec::new();
    let mut i: usize = 0;
    while i < s.len()
        invariant
            i <= s.len(),
            out@ =~= ascii_lowercase(s@).take(i as int),
        decreases s.len() - i,
    {
        let c = s[i];
        let l = if 'A' <= c && c <= 'Z' {
            char_from_u32_ascii((c as u32) + 32)
        } else {
            c
        };
        out.push(l);
        i += 1;
    }
    out
}

/// The char with an ASCII code point.
fn char_from_u32_ascii(u: u32) -> (c: char)
    requires
        u < 128,
    ensures
        c == u as char,
{
    (u as u8) as char
}

} // verus!

verus! {

/// `trim_start` drops a run of leading whitespace and stops at a
/// non-whitespace char.
pub proof fn lemma_trim_start_shape(s: Seq<char>)
    ensures
        trim_start(s).len() == 0 || !is_whitespace(trim_start(s)[0]),
        trim_start(s) == s.skip(s.len() - trim_start(s).len()),
        trim_start(s).len() <= s.len(),
    decreases s.len(),
{
    if s.len() > 0 && is_whitespace(s[0]) {
        lemma_trim_start_shape(s.drop_first());
        assert(s.drop_first().skip(s.drop_first().len() - trim_start(s.drop_first()).len())
            =~= s.skip(s.len() - trim_start(s).len()));
    } else {
        assert(s.skip(0) =~= s);
    }
}

/// `trim_end` drops a run of trailing whitespace and stops at a
/// non-whitespace char.
pub proof fn lemma_trim_end_shape(s: Seq<char>)
    ensures
        trim_end(s).len() == 0 || !is_whitespace(trim_end(s).last()),
        trim_end(s) == s.take(trim_end(s).len() as int),
        trim_end(s).len() <= s.len(),
    decreases s.len(),
{
    if s.len() > 0 && is_whitespace(s.last()) {
        lemma_trim_end_shape(s.drop_last());
        assert(s.drop_last().take(trim_end(s.drop_last()).len() as int) =~= s.take(
            trim_end(s).len() as int,
        ));
    } else {
        assert(s.take(s.len() as int) =~= s);
    }
}

/// Trimming a trimmed text changes nothing.
pub proof fn lemma_trim_idempotent(s: Seq<char>)
    ensures
        trim(trim(s)) == trim(s),
        trim(s).len() == 0 || (!is_whitespace(trim(s)[0]) && !is_whitespace(trim(s).last())),
{
    let a = trim_start(s);
    lemma_trim_start_shape(s);
    lemma_trim_end_shape(a);
    let t = trim_end(a);
    if t.len() > 0 {
        assert(t[0] == a[0]);
        assert(trim_start(t) == t);
        lemma_trim_end_shape(t);
        assert(trim_end(t) == t);
    } else {
        assert(trim_start(t) == t);
    }
}

} // verus!
