//! Verified string utilities: equality, prefixes and suffixes, lexicographic
//! order, splitting and trimming, over the character-sequence views of `str`.

use vstd::prelude::*;
use vstd::relations::total_ordering;

verus! {

/// Character-wise equality of two string slices.
pub fn str_eq(a: &str, b: &str) -> (r: bool)
    ensures
        r == (a@ == b@),
{
    let n = a.unicode_len();
    let m = b.unicode_len();
    if n != m {
        return false;
    }
    let mut i: usize = 0;
    while i < n
        invariant
            n as nat == a@.len(),
            n as nat == b@.len(),
            i <= n,
            forall|k: int| 0 <= k < i ==> a@[k] == b@[k],
        decreases n - i,
    {
        if a.get_char(i) != b.get_char(i) {
            return false;
        }
        i += 1;
    }
    proof {
        assert(a@ =~= b@);
    }
    true
}

/// `p` is a prefix of `s`.
pub open spec fn has_prefix(s: Seq<char>, p: Seq<char>) -> bool {
    p.len() <= s.len() && s.subrange(0, p.len() as int) == p
}

/// `p` is a suffix of `s`.
pub open spec fn has_suffix(s: Seq<char>, p: Seq<char>) -> bool {
    p.len() <= s.len() && s.subrange(s.len() - p.len(), s.len() as int) == p
}

pub fn str_starts_with(s: &str, p: &str) -> (r: bool)
    ensures
        r == has_prefix(s@, p@),
{
    let n = s.unicode_len();
    let m = p.unicode_len();
    if m > n {
        return false;
    }
    str_eq(s.substring_char(0, m), p)
}

pub fn str_ends_with(s: &str, p: &str) -> (r: bool)
    ensures
        r == has_suffix(s@, p@),
{
    let n = s.unicode_len();
    let m = p.unicode_len();
    if m > n {
        return false;
    }
    str_eq(s.substring_char(n - m, n), p)
}

/// Lexicographic order on character sequences, by code point; a proper prefix
/// sorts before its extensions, so the empty sequence sorts before everything.
pub open spec fn lex_leq(a: Seq<char>, b: Seq<char>) -> bool
    decreases a.len(),
{
    if a.len() == 0 {
        true
    } else if b.len() == 0 {
        false
    } else if a[0] < b[0] {
        true
    } else if a[0] > b[0] {
        false
    } else {
        lex_leq(a.drop_first(), b.drop_first())
    }
}

pub proof fn lemma_lex_refl(a: Seq<char>)
    ensures
        lex_leq(a, a),
    decreases a.len(),
{
    if a.len() > 0 {
        lemma_lex_refl(a.drop_first());
    }
}

pub proof fn lemma_lex_trans(a: Seq<char>, b: Seq<char>, c: Seq<char>)
    requires
        lex_leq(a, b),
        lex_leq(b, c),
    ensures
        lex_leq(a, c),
    decreases a.len(),
{
    if a.len() > 0 && b.len() > 0 && c.len() > 0 {
        if a[0] == b[0] && b[0] == c[0] {
            lemma_lex_trans(a.drop_first(), b.drop_first(), c.drop_first());
        }
    }
}

pub proof fn lemma_lex_antisym(a: Seq<char>, b: Seq<char>)
    requires
        lex_leq(a, b),
        lex_leq(b, a),
    ensures
        a == b,
    decreases a.len(),
{
    if a.len() == 0 {
        assert(b.len() == 0);
        assert(a =~= b);
    } else {
        assert(b.len() > 0);
        assert(a[0] == b[0]);
        lemma_lex_antisym(a.drop_first(), b.drop_first());
        assert(a.drop_first().len() == b.drop_first().len());
        assert(a.len() == b.len());
        assert forall|i: int| 0 <= i < a.len() implies a[i] == b[i] by {
            if i > 0 {
                assert(a[i] == a.drop_first()[i - 1]);
                assert(b[i] == b.drop_first()[i - 1]);
            }
        }
        assert(a =~= b);
    }
}

pub proof fn lemma_lex_connected(a: Seq<char>, b: Seq<char>)
    ensures
        lex_leq(a, b) || lex_leq(b, a),
    decreases a.len(),
{
    if a.len() > 0 && b.len() > 0 && a[0] == b[0] {
        lemma_lex_connected(a.drop_first(), b.drop_first());
    }
}

/// The lexicographic order as a relation value, for use with vstd's
/// order-related lemmas.
pub open spec fn lex_leq_rel() -> spec_fn(Seq<char>, Seq<char>) -> bool {
    |a: Seq<char>, b: Seq<char>| lex_leq(a, b)
}

pub proof fn lemma_lex_total_ordering()
    ensures
        total_ordering(lex_leq_rel()),
{
    let r = lex_leq_rel();
    assert forall|a: Seq<char>| #[trigger] r(a, a) by {
        lemma_lex_refl(a);
    }
    assert forall|a: Seq<char>, b: Seq<char>, c: Seq<char>|
        #[trigger] r(a, b) && #[trigger] r(b, c) implies r(a, c) by {
        lemma_lex_trans(a, b, c);
    }
    assert forall|a: Seq<char>, b: Seq<char>| #[trigger] r(a, b) && #[trigger] r(b, a) implies a
        == b by {
        lemma_lex_antisym(a, b);
    }
    assert forall|a: Seq<char>, b: Seq<char>| #[trigger] r(a, b) || #[trigger] r(b, a) by {
        lemma_lex_connected(a, b);
    }
}

/// If `a` and `b` agree below `i`, comparing them is comparing their tails from `i`.
proof fn lemma_lex_common_prefix(a: Seq<char>, b: Seq<char>, i: int)
    requires
        0 <= i <= a.len(),
        i <= b.len(),
        forall|k: int| 0 <= k < i ==> a[k] == b[k],
    ensures
        lex_leq(a, b) == lex_leq(a.skip(i), b.skip(i)),
    decreases i,
{
    if i > 0 {
        assert(a.len() > 0 && b.len() > 0);
        assert(a[0] == b[0]);
        lemma_lex_common_prefix(a.drop_first(), b.drop_first(), i - 1);
        assert(a.drop_first().skip(i - 1) =~= a.skip(i));
        assert(b.drop_first().skip(i - 1) =~= b.skip(i));
    } else {
        assert(a.skip(0) =~= a);
        assert(b.skip(0) =~= b);
    }
}

/// Lexicographic comparison of two string slices.
pub fn str_leq(a: &str, b: &str) -> (r: bool)
    ensures
        r == lex_leq(a@, b@),
{
    let n = a.unicode_len();
    let m = b.unicode_len();
    let stop: usize = if n < m {
        n
    } else {
        m
    };
    let mut i: usize = 0;
    while i < stop
        invariant
            n as nat == a@.len(),
            m as nat == b@.len(),
            stop <= n,
            stop <= m,
            i <= stop,
            forall|k: int| 0 <= k < i ==> a@[k] == b@[k],
        decreases stop - i,
    {
        let ca = a.get_char(i);
        let cb = b.get_char(i);
        if ca != cb {
            proof {
                lemma_lex_common_prefix(a@, b@, i as int);
                assert(a@.skip(i as int)[0] == a@[i as int]);
                assert(b@.skip(i as int)[0] == b@[i as int]);
            }
            return ca < cb;
        }
        i += 1;
    }
    proof {
        lemma_lex_common_prefix(a@, b@, stop as int);
        if n <= m {
            assert(a@.skip(stop as int).len() == 0);
        } else {
            assert(b@.skip(stop as int).len() == 0);
            assert(a@.skip(stop as int).len() > 0);
        }
    }
    n <= m
}

/// The character-sequence views of a vector of strings.
pub open spec fn vec_views(v: Vec<String>) -> Seq<Seq<char>> {
    Seq::new(v@.len(), |i: int| v@[i]@)
}

/// Splitting on a non-empty separator, scanning left to right; a match consumes
/// the separator and ends the current piece.  The result always has at least
/// one piece, and the pieces joined by the separator give back the input.
pub open spec fn split_sub(s: Seq<char>, sep: Seq<char>) -> Seq<Seq<char>>
    decreases s.len(),
{
    if sep.len() == 0 || s.len() < sep.len() {
        seq![s]
    } else if s.subrange(0, sep.len() as int) == sep {
        seq![Seq::<char>::empty()] + split_sub(s.skip(sep.len() as int), sep)
    } else {
        let rest = split_sub(s.skip(1), sep);
        seq![seq![s[0]] + rest[0]] + rest.skip(1)
    }
}

pub proof fn lemma_split_sub_len(s: Seq<char>, sep: Seq<char>)
    ensures
        split_sub(s, sep).len() >= 1,
    decreases s.len(),
{
    if sep.len() == 0 || s.len() < sep.len() {
    } else if s.subrange(0, sep.len() as int) == sep {
    } else {
        lemma_split_sub_len(s.skip(1), sep);
    }
}

/// The pieces still to be produced when the scan stands at `i` with the
/// current piece begun at `start`.
spec fn split_state(s: Seq<char>, sep: Seq<char>, start: int, i: int) -> Seq<Seq<char>> {
    let tail = split_sub(s.skip(i), sep);
    seq![s.subrange(start, i) + tail[0]] + tail.skip(1)
}

/// Split `s` on the separator `sep`, as `str::split` does for a literal pattern.
pub fn split_on(s: &str, sep: &str) -> (r: Vec<String>)
    requires
        sep@.len() > 0,
    ensures
        vec_views(r) == split_sub(s@, sep@),
{
    let n = s.unicode_len();
    let m = sep.unicode_len();
    let mut r: Vec<String> = Vec::new();
    let mut start: usize = 0;
    let mut i: usize = 0;
    proof {
        lemma_split_sub_len(s@, sep@);
        assert(s@.skip(0) =~= s@);
        let tail = split_sub(s@, sep@);
        assert(s@.subrange(0, 0) + tail[0] =~= tail[0]);
        assert(seq![tail[0]] + tail.skip(1) =~= tail);
        assert(vec_views(r) + split_state(s@, sep@, 0, 0) =~= split_sub(s@, sep@));
    }
    while i < n
        invariant
            n as nat == s@.len(),
            m as nat == sep@.len(),
            m >= 1,
            start <= i <= n,
            vec_views(r) + split_state(s@, sep@, start as int, i as int) == split_sub(s@, sep@),
        decreases n - i,
    {
        proof {
            lemma_split_sub_len(s@.skip(i as int), sep@);
        }
        if m <= n - i && str_eq(s.substring_char(i, i + m), sep) {
            let piece = s.substring_char(start, i).to_owned();
            proof {
                let sv = s@;
                let pv = sep@;
                let ii = i as int;
                let mm = m as int;
                let st = start as int;
                let tail = split_sub(sv.skip(ii), pv);
                assert(sv.skip(ii).subrange(0, mm) =~= sv.subrange(ii, ii + mm));
                assert(sv.skip(ii).subrange(0, mm) == pv);
                assert(sv.skip(ii).skip(mm) =~= sv.skip(ii + mm));
                assert(tail == seq![Seq::<char>::empty()] + split_sub(sv.skip(ii + mm), pv));
                let tail2 = split_sub(sv.skip(ii + mm), pv);
                lemma_split_sub_len(sv.skip(ii + mm), pv);
                assert(tail[0] =~= Seq::<char>::empty());
                assert(tail.skip(1) =~= tail2);
                assert(sv.subrange(st, ii) + tail[0] =~= sv.subrange(st, ii));
                assert(seq![tail2[0]] + tail2.skip(1) =~= tail2);
                let old_views = vec_views(r);
                let new_views = vec_views(r).push(sv.subrange(st, ii));
                assert(old_views + split_state(sv, pv, st, ii) =~= new_views + split_state(
                    sv,
                    pv,
                    ii + mm,
                    ii + mm,
                ));
            }
            let ghost pre_views = vec_views(r);
            r.push(piece);
            proof {
                assert(vec_views(r) =~= pre_views.push(s@.subrange(start as int, i as int)));
            }
            i += m;
            start = i;
        } else {
            proof {
                let sv = s@;
                let pv = sep@;
                let ii = i as int;
                let mm = m as int;
                let st = start as int;
                let tail = split_sub(sv.skip(ii), pv);
                if n - i >= m {
                    assert(sv.skip(ii).subrange(0, mm) =~= sv.subrange(ii, ii + mm));
                    assert(sv.skip(ii).subrange(0, mm) != pv);
                    let rest = split_sub(sv.skip(ii).skip(1), pv);
                    assert(tail == seq![seq![sv.skip(ii)[0]] + rest[0]] + rest.skip(1));
                    assert(sv.skip(ii).skip(1) =~= sv.skip(ii + 1));
                    let tail2 = split_sub(sv.skip(ii + 1), pv);
                    assert(rest == tail2);
                    lemma_split_sub_len(sv.skip(ii + 1), pv);
                    assert(sv.skip(ii)[0] == sv[ii]);
                    assert(sv.subrange(st, ii) + (seq![sv[ii]] + tail2[0]) =~= sv.subrange(
                        st,
                        ii + 1,
                    ) + tail2[0]);
                    assert(tail.skip(1) =~= tail2.skip(1));
                    assert(split_state(sv, pv, st, ii) =~= split_state(sv, pv, st, ii + 1));
                } else {
                    assert(sv.skip(ii).len() < mm);
                    assert(tail == seq![sv.skip(ii)]);
                    assert(sv.skip(ii + 1).len() < mm);
                    let tail2 = split_sub(sv.skip(ii + 1), pv);
                    assert(tail2 == seq![sv.skip(ii + 1)]);
                    assert(sv.subrange(st, ii) + sv.skip(ii) =~= sv.subrange(st, ii + 1) + sv.skip(
                        ii + 1,
                    ));
                    assert(split_state(sv, pv, st, ii) =~= split_state(sv, pv, st, ii + 1));
                }
            }
            i += 1;
        }
    }
    let last = s.substring_char(start, n).to_owned();
    proof {
        let sv = s@;
        let pv = sep@;
        let st = start as int;
        assert(sv.skip(n as int).len() == 0);
        let tail = split_sub(sv.skip(n as int), pv);
        assert(tail == seq![sv.skip(n as int)]);
        assert(sv.subrange(st, n as int) + sv.skip(n as int) =~= sv.subrange(st, n as int));
        assert(tail.skip(1) =~= Seq::<Seq<char>>::empty());
        assert(split_state(sv, pv, st, n as int) =~= seq![sv.subrange(st, n as int)]);
    }
    let ghost pre_views = vec_views(r);
    r.push(last);
    proof {
        assert(vec_views(r) =~= pre_views + seq![s@.subrange(start as int, n as int)]);
    }
    r
}

/// Whitespace as `str::trim` removes it: the Unicode `White_Space` characters.
pub open spec fn is_wspace(c: char) -> bool {
    c == ' ' || c == '\t' || c == '\n' || c == '\r' || c == '\u{000B}' || c == '\u{000C}'
        || c == '\u{0085}' || c == '\u{00A0}' || c == '\u{1680}' || ('\u{2000}' <= c && c
        <= '\u{200A}') || c == '\u{2028}' || c == '\u{2029}' || c == '\u{202F}' || c == '\u{205F}'
        || c == '\u{3000}'
}

fn wspace(c: char) -> (r: bool)
    ensures
        r == is_wspace(c),
{
    c == ' ' || c == '\t' || c == '\n' || c == '\r' || c == '\u{000B}' || c == '\u{000C}'
        || c == '\u{0085}' || c == '\u{00A0}' || c == '\u{1680}' || ('\u{2000}' <= c && c
        <= '\u{200A}') || c == '\u{2028}' || c == '\u{2029}' || c == '\u{202F}' || c == '\u{205F}'
        || c == '\u{3000}'
}

pub open spec fn trim_front(s: Seq<char>) -> Seq<char>
    decreases s.len(),
{
    if s.len() > 0 && is_wspace(s[0]) {
        trim_front(s.drop_first())
    } else {
        s
    }
}

pub open spec fn trim_back(s: Seq<char>) -> Seq<char>
    decreases s.len(),
{
    if s.len() > 0 && is_wspace(s.last()) {
        trim_back(s.drop_last())
    } else {
        s
    }
}

/// What `str::trim` leaves: the input without leading and trailing whitespace.
pub open spec fn trim_spec(s: Seq<char>) -> Seq<char> {
    trim_back(trim_front(s))
}

proof fn lemma_trim_front_skip(s: Seq<char>, i: int)
    requires
        0 <= i <= s.len(),
        forall|k: int| 0 <= k < i ==> is_wspace(s[k]),
    ensures
        trim_front(s) == trim_front(s.skip(i)),
    decreases i,
{
    if i > 0 {
        assert(is_wspace(s[0]));
        lemma_trim_front_skip(s.drop_first(), i - 1);
        assert(s.drop_first().skip(i - 1) =~= s.skip(i));
    } else {
        assert(s.skip(0) =~= s);
    }
}

proof fn lemma_trim_back_take(s: Seq<char>, j: int)
    requires
        0 <= j <= s.len(),
        forall|k: int| j <= k < s.len() ==> is_wspace(s[k]),
    ensures
        trim_back(s) == trim_back(s.take(j)),
    decreases s.len() - j,
{
    if j < s.len() {
        assert(is_wspace(s.last()));
        lemma_trim_back_take(s.drop_last(), j);
        assert(s.drop_last().take(j) =~= s.take(j));
    } else {
        assert(s.take(j) =~= s);
    }
}

/// Trim leading and trailing whitespace, as `str::trim` does.
pub fn str_trim(s: &str) -> (r: String)
    ensures
        r@ == trim_spec(s@),
{
    let n = s.unicode_len();
    let mut lo: usize = 0;
    while lo < n && wspace(s.get_char(lo))
        invariant
            n as nat == s@.len(),
            lo <= n,
            forall|k: int| 0 <= k < lo ==> is_wspace(s@[k]),
        decreases n - lo,
    {
        lo += 1;
    }
    let mut hi: usize = n;
    while hi > lo && wspace(s.get_char(hi - 1))
        invariant
            n as nat == s@.len(),
            lo <= hi <= n,
            forall|k: int| 0 <= k < lo ==> is_wspace(s@[k]),
            lo == n || !is_wspace(s@[lo as int]),
            forall|k: int| hi <= k < n ==> is_wspace(s@[k]),
        decreases hi,
    {
        hi -= 1;
    }
    let r = s.substring_char(lo, hi).to_owned();
    proof {
        let sv = s@;
        let lo_i = lo as int;
        let hi_i = hi as int;
        lemma_trim_front_skip(sv, lo_i);
        if lo < n {
            assert(sv.skip(lo_i)[0] == sv[lo_i]);
        }
        assert(trim_front(sv.skip(lo_i)) == sv.skip(lo_i));
        lemma_trim_back_take(sv.skip(lo_i), hi_i - lo_i);
        assert(sv.skip(lo_i).take(hi_i - lo_i) =~= sv.subrange(lo_i, hi_i));
        if hi > lo {
            assert(!is_wspace(sv.subrange(lo_i, hi_i).last()));
        }
        assert(trim_back(sv.subrange(lo_i, hi_i)) == sv.subrange(lo_i, hi_i));
    }
    r
}

} // verus!
