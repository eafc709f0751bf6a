//! Display names and path strings. The source format pads fixed-width name
//! fields with null bytes; names are trimmed of that padding before they
//! appear in paths or listings. A path is the `/`-joined sequence of
//! trimmed ancestor names, root-most first, with a leading `/`.

use vstd::prelude::*;
use vstd::string::*;

verus! {

/// `s` without its leading null characters.
pub open spec fn drop_leading_nulls(s: Seq<char>) -> Seq<char>
    decreases s.len(),
{
    if s.len() > 0 && s[0] == '\0' {
        drop_leading_nulls(s.drop_first())
    } else {
        s
    }
}

/// `s` without its trailing null characters.
pub open spec fn drop_trailing_nulls(s: Seq<char>) -> Seq<char>
    decreases s.len(),
{
    if s.len() > 0 && s.last() == '\0' {
        drop_trailing_nulls(s.drop_last())
    } else {
        s
    }
}

/// `s` without leading and trailing null padding.
pub open spec fn trim_nulls(s: Seq<char>) -> Seq<char> {
    drop_trailing_nulls(drop_leading_nulls(s))
}

/// No character of `s` is a path separator.
pub open spec fn no_slash(s: Seq<char>) -> bool {
    forall|i: int| 0 <= i < s.len() ==> s[i] != '/'
}

/// The path text for root-first segments: `/a/b/c` for `[a, b, c]`, and the
/// empty text for no segments.
pub open spec fn joined(segs: Seq<Seq<char>>) -> Seq<char>
    decreases segs.len(),
{
    if segs.len() == 0 {
        Seq::empty()
    } else {
        seq!['/'] + segs[0] + joined(segs.drop_first())
    }
}

/// The index of the first path separator in `s`, or `s.len()` if there is
/// none.
pub open spec fn first_slash(s: Seq<char>) -> int
    decreases s.len(),
{
    if s.len() == 0 {
        0
    } else if s[0] == '/' {
        0
    } else {
        1 + first_slash(s.drop_first())
    }
}

/// `s` split on `/`: always at least one segment, segments may be empty.
pub open spec fn split_on(s: Seq<char>) -> Seq<Seq<char>>
    decreases s.len(),
{
    let i = first_slash(s);
    if 0 <= i < s.len() {
        seq![s.subrange(0, i)] + split_on(s.subrange(i + 1, s.len() as int))
    } else {
        seq![s]
    }
}

/// The segments of a path: one leading `/` is skipped (an absolute path's
/// root), then the rest is split on `/`.
pub open spec fn split_path(s: Seq<char>) -> Seq<Seq<char>> {
    if s.len() > 0 && s[0] == '/' {
        split_on(s.subrange(1, s.len() as int))
    } else {
        split_on(s)
    }
}

/// The first separator is at `i` exactly when everything before `i` is
/// separator-free and `i` is a separator or the end.
pub proof fn lemma_first_slash_at(s: Seq<char>, i: int)
    requires
        0 <= i <= s.len(),
        forall|j: int| 0 <= j < i ==> s[j] != '/',
        i < s.len() ==> s[i] == '/',
    ensures
        first_slash(s) == i,
    decreases i,
{
    if i > 0 {
        lemma_first_slash_at(s.drop_first(), i - 1);
    }
}

/// Splitting a separator-free text yields that one segment.
pub proof fn lemma_split_on_no_slash(s: Seq<char>)
    requires
        no_slash(s),
    ensures
        split_on(s) == seq![s],
{
    lemma_first_slash_at(s, s.len() as int);
}

/// Splitting starts with the separator-free prefix before the first `/`.
pub proof fn lemma_split_on_concat(a: Seq<char>, r: Seq<char>)
    requires
        no_slash(a),
    ensures
        split_on(a + seq!['/'] + r) == seq![a] + split_on(r),
{
    let t = a + seq!['/'] + r;
    assert(t[a.len() as int] == '/');
    lemma_first_slash_at(t, a.len() as int);
    assert(t.subrange(0, a.len() as int) =~= a);
    assert(t.subrange(a.len() as int + 1, t.len() as int) =~= r);
}

/// Splitting the joined path of separator-free segments recovers the
/// segments.
pub proof fn lemma_split_joined(segs: Seq<Seq<char>>)
    requires
        segs.len() >= 1,
        forall|k: int| 0 <= k < segs.len() ==> no_slash(#[trigger] segs[k]),
    ensures
        split_path(joined(segs)) == segs,
    decreases segs.len(),
{
    let j = joined(segs);
    let rest = segs.drop_first();
    assert(j == seq!['/'] + segs[0] + joined(rest));
    assert(j[0] == '/');
    assert(j.subrange(1, j.len() as int) =~= segs[0] + joined(rest));
    if rest.len() == 0 {
        assert(segs[0] + joined(rest) =~= segs[0]);
        lemma_split_on_no_slash(segs[0]);
        assert(seq![segs[0]] =~= segs);
    } else {
        let jr = joined(rest);
        assert(jr == seq!['/'] + rest[0] + joined(rest.drop_first()));
        assert(jr[0] == '/');
        let jr_tail = jr.subrange(1, jr.len() as int);
        assert(segs[0] + jr =~= segs[0] + seq!['/'] + jr_tail);
        lemma_split_on_concat(segs[0], jr_tail);
        lemma_split_joined(rest);
        assert(split_path(jr) == split_on(jr_tail));
        assert(seq![segs[0]] + rest =~= segs);
    }
}

/// Joining one more segment appends a separator and the segment.
pub proof fn lemma_joined_push(segs: Seq<Seq<char>>, e: Seq<char>)
    ensures
        joined(segs.push(e)) == joined(segs) + seq!['/'] + e,
    decreases segs.len(),
{
    if segs.len() == 0 {
        assert(segs.push(e)[0] == e);
        assert(segs.push(e).drop_first() =~= Seq::<Seq<char>>::empty());
        assert(joined(segs.push(e).drop_first()) == Seq::<char>::empty());
        assert(joined(segs.push(e)) == seq!['/'] + e + Seq::<char>::empty());
        assert(joined(segs) == Seq::<char>::empty());
        assert(seq!['/'] + e + Seq::<char>::empty() =~= Seq::<char>::empty() + seq!['/'] + e);
    } else {
        assert(segs.push(e).drop_first() =~= segs.drop_first().push(e));
        lemma_joined_push(segs.drop_first(), e);
        assert(segs.push(e)[0] == segs[0]);
        assert(joined(segs.push(e)) == seq!['/'] + segs[0] + joined(segs.drop_first().push(e)));
        assert(joined(segs) == seq!['/'] + segs[0] + joined(segs.drop_first()));
        let head = seq!['/'] + segs[0];
        let tail = joined(segs.drop_first());
        assert(joined(segs.push(e)) == head + (tail + seq!['/'] + e));
        assert(head + (tail + seq!['/'] + e) =~= (head + tail) + seq!['/'] + e);
    }
}

pub proof fn lemma_drop_leading_is_subrange(s: Seq<char>, i: int)
    requires
        0 <= i <= s.len(),
        forall|j: int| 0 <= j < i ==> s[j] == '\0',
        i < s.len() ==> s[i] != '\0',
    ensures
        drop_leading_nulls(s) == s.subrange(i, s.len() as int),
    decreases i,
{
    if i == 0 {
        assert(s.subrange(0, s.len() as int) =~= s);
    } else {
        lemma_drop_leading_is_subrange(s.drop_first(), i - 1);
        assert(s.drop_first().subrange(i - 1, s.drop_first().len() as int) =~= s.subrange(
            i,
            s.len() as int,
        ));
    }
}

pub proof fn lemma_drop_trailing_is_subrange(s: Seq<char>, i: int)
    requires
        0 <= i <= s.len(),
        forall|j: int| i <= j < s.len() ==> s[j] == '\0',
        i > 0 ==> s[i - 1] != '\0',
    ensures
        drop_trailing_nulls(s) == s.subrange(0, i),
    decreases s.len() - i,
{
    if i == s.len() {
        if s.len() > 0 && s.last() == '\0' {
            assert(s[i - 1] != '\0');
            assert(false);
        }
        assert(s.subrange(0, s.len() as int) =~= s);
    } else {
        lemma_drop_trailing_is_subrange(s.drop_last(), i);
        assert(s.drop_last().subrange(0, i) =~= s.subrange(0, i));
    }
}

/// The display name with leading and trailing null padding removed.
pub fn trim_null_padding(s: &str) -> (r: String)
    ensures
        r@ == trim_nulls(s@),
{
    let n = s.unicode_len();
    let mut lo: usize = 0;
    while lo < n && s.get_char(lo) == '\0'
        invariant
            0 <= lo <= n,
            n == s@.len(),
            forall|j: int| 0 <= j < lo ==> s@[j] == '\0',
        decreases n - lo,
    {
        lo = lo + 1;
    }
    let mut hi: usize = n;
    while hi > lo && s.get_char(hi - 1) == '\0'
        invariant
            lo <= hi <= n,
            n == s@.len(),
            forall|j: int| hi <= j < n ==> s@[j] == '\0',
        decreases hi,
    {
        hi = hi - 1;
    }
    let sub = s.substring_char(lo, hi);
    proof {
        lemma_drop_leading_is_subrange(s@, lo as int);
        let t = s@.subrange(lo as int, n as int);
        lemma_drop_trailing_is_subrange(t, hi - lo);
        assert(t.subrange(0, hi - lo) =~= s@.subrange(lo as int, hi as int));
    }
    sub.to_owned()
}

/// The views of a list of owned strings.
pub open spec fn views_of(parts: Seq<String>) -> Seq<Seq<char>> {
    parts.map_values(|p: String| p@)
}

/// Builds the path text for root-first segments: `/` before each part.
pub fn join_segments(parts: &Vec<String>) -> (r: String)
    ensures
        r@ == joined(views_of(parts@)),
{
    let segs = Ghost(views_of(parts@));
    let mut out = String::new();
    let mut k: usize = 0;
    proof {
        assert(segs@.subrange(0, 0) =~= Seq::<Seq<char>>::empty());
    }
    while k < parts.len()
        invariant
            0 <= k <= parts@.len(),
            segs@ == views_of(parts@),
            segs@.len() == parts@.len(),
            forall|j: int| 0 <= j < parts@.len() ==> segs@[j] == parts@[j]@,
            out@ == joined(segs@.subrange(0, k as int)),
        decreases parts@.len() - k,
    {
        out.append("/");
        out.append(parts[k].as_str());
        proof {
            reveal_strlit("/");
            assert("/"@ =~= seq!['/']);
            lemma_joined_push(segs@.subrange(0, k as int), segs@[k as int]);
            assert(segs@.subrange(0, k + 1) =~= segs@.subrange(0, k as int).push(
                segs@[k as int],
            ));
        }
        k = k + 1;
    }
    proof {
        assert(segs@.subrange(0, parts@.len() as int) =~= segs@);
    }
    out
}

/// Splits a path into its segments: one leading `/` is skipped, the rest is
/// split on `/`. The result always holds at least one segment.
pub fn split_path_str(s: &str) -> (r: Vec<String>)
    ensures
        views_of(r@) == split_path(s@),
        r@.len() >= 1,
{
    let n = s.unicode_len();
    let mut start: usize = 0;
    if n > 0 && s.get_char(0) == '/' {
        start = 1;
    }
    proof {
        if n > 0 && s@[0] == '/' {
            assert(s@.subrange(1, n as int) == s@.subrange(start as int, n as int));
        } else {
            assert(s@.subrange(start as int, n as int) =~= s@);
        }
    }
    let mut segs: Vec<String> = Vec::new();
    let mut cur: usize = start;
    while cur < n
        invariant
            start <= cur <= n,
            n == s@.len(),
            split_path(s@) == views_of(segs@) + split_on(s@.subrange(start as int, n as int)),
            forall|j: int| start <= j < cur ==> s@[j] != '/',
        decreases n - cur,
    {
        if s.get_char(cur) == '/' {
            let piece = s.substring_char(start, cur);
            proof {
                let t = s@.subrange(start as int, n as int);
                lemma_first_slash_at(t, cur - start);
                assert(t.subrange(0, cur - start) =~= s@.subrange(start as int, cur as int));
                assert(t.subrange(cur - start + 1, t.len() as int) =~= s@.subrange(
                    cur + 1,
                    n as int,
                ));
            }
            let owned = piece.to_owned();
            segs.push(owned);
            proof {
                assert(views_of(segs@) =~= views_of(segs@.drop_last()) + seq![
                    s@.subrange(start as int, cur as int),
                ]);
            }
            start = cur + 1;
        }
        cur = cur + 1;
    }
    let last = s.substring_char(start, n);
    proof {
        let t = s@.subrange(start as int, n as int);
        lemma_split_on_no_slash(t);
    }
    let owned = last.to_owned();
    segs.push(owned);
    proof {
        assert(views_of(segs@) =~= views_of(segs@.drop_last()) + seq![
            s@.subrange(start as int, n as int),
        ]);
        assert(views_of(segs@) =~= split_path(s@));
    }
    segs
}

} // verus!
