//! Character-level text utilities: lexicographic ordering of strings,
//! whitespace trimming, and insertion into a sorted, duplicate-free
//! vector of strings.

use vstd::prelude::*;

verus! {

/// Strict lexicographic order on character sequences, by code point.
pub open spec fn lex_lt(a: Seq<char>, b: Seq<char>) -> bool
    decreases a.len(),
{
    if b.len() == 0 {
        false
    } else if a.len() == 0 {
        true
    } else if a[0] != b[0] {
        (a[0] as u32) < (b[0] as u32)
    } else {
        lex_lt(a.drop_first(), b.drop_first())
    }
}

/// `lex_lt` is irreflexive and asymmetric, and two sequences neither of
/// which precedes the other are equal.
pub proof fn lemma_lex_connected(a: Seq<char>, b: Seq<char>)
    ensures
        lex_lt(a, b) ==> !lex_lt(b, a),
        !lex_lt(a, b) && !lex_lt(b, a) ==> a == b,
    decreases a.len(),
{
    if a.len() == 0 && b.len() == 0 {
        assert(a =~= b);
    } else if a.len() > 0 && b.len() > 0 && a[0] == b[0] {
        lemma_lex_connected(a.drop_first(), b.drop_first());
        if !lex_lt(a, b) && !lex_lt(b, a) {
            assert(a.drop_first() == b.drop_first());
            assert(a.len() == b.len());
            assert forall|i: int| 0 <= i < a.len() implies a[i] == b[i] by {
                if i >= 1 {
                    assert(a[i] == a.drop_first()[i - 1]);
                    assert(b[i] == b.drop_first()[i - 1]);
                }
            }
            assert(a =~= b);
        }
    } else if a.len() > 0 && b.len() > 0 {
        vstd::utf8::char_u32_cast(a[0], a[0] as u32);
        vstd::utf8::char_u32_cast(b[0], b[0] as u32);
        assert((a[0] as u32) != (b[0] as u32));
        assert(lex_lt(a, b) || lex_lt(b, a));
    }
}

/// `lex_lt` is transitive.
pub proof fn lemma_lex_transitive(a: Seq<char>, b: Seq<char>, c: Seq<char>)
    requires
        lex_lt(a, b),
        lex_lt(b, c),
    ensures
        lex_lt(a, c),
    decreases a.len(),
{
    if a.len() > 0 && b.len() > 0 && c.len() > 0 && a[0] == b[0] && b[0] == c[0] {
        lemma_lex_transitive(a.drop_first(), b.drop_first(), c.drop_first());
    }
}

/// Decides `lex_lt` on string slices.
pub fn str_lex_lt(a: &str, b: &str) -> (r: bool)
    ensures
        r == lex_lt(a@, b@),
{
    let la = a.unicode_len();
    let lb = b.unicode_len();
    let mut i: usize = 0;
    proof {
        assert(a@.skip(0) =~= a@);
        assert(b@.skip(0) =~= b@);
    }
    loop
        invariant
            0 <= i <= la,
            i <= lb,
            la == a@.len(),
            lb == b@.len(),
            lex_lt(a@, b@) == lex_lt(a@.skip(i as int), b@.skip(i as int)),
        decreases la - i,
    {
        if i == lb {
            proof {
                assert(b@.skip(i as int).len() == 0);
            }
            return false;
        }
        if i == la {
            proof {
                assert(a@.skip(i as int).len() == 0);
                assert(b@.skip(i as int).len() > 0);
            }
            return true;
        }
        let ca = a.get_char(i);
        let cb = b.get_char(i);
        proof {
            assert(a@.skip(i as int)[0] == a@[i as int]);
            assert(b@.skip(i as int)[0] == b@[i as int]);
        }
        if ca != cb {
            return (ca as u32) < (cb as u32);
        }
        proof {
            assert(a@.skip(i as int).drop_first() =~= a@.skip(i + 1));
            assert(b@.skip(i as int).drop_first() =~= b@.skip(i + 1));
        }
        i = i + 1;
    }
}

/// Decides view equality of two string slices.
pub fn str_eq(a: &str, b: &str) -> (r: bool)
    ensures
        r == (a@ == b@),
{
    let la = a.unicode_len();
    let lb = b.unicode_len();
    if la != lb {
        return false;
    }
    let mut i: usize = 0;
    while i < la
        invariant
            0 <= i <= la,
            la == a@.len(),
            la == b@.len(),
            forall|k: int| 0 <= k < i ==> a@[k] == b@[k],
        decreases la - i,
    {
        if a.get_char(i) != b.get_char(i) {
            return false;
        }
        i = i + 1;
    }
    proof {
        assert(a@ =~= b@);
    }
    true
}

/// The characters trimming removes from either end of a string.
pub open spec fn is_space(c: char) -> bool {
    c == ' ' || c == '\t' || c == '\n' || c == '\r'
}

/// The length of the longest all-space prefix of `s`.
pub open spec fn space_prefix_len(s: Seq<char>) -> nat
    decreases s.len(),
{
    if s.len() == 0 || !is_space(s[0]) {
        0
    } else {
        1 + space_prefix_len(s.drop_first())
    }
}

/// The length of the longest all-space suffix of `s`.
pub open spec fn space_suffix_len(s: Seq<char>) -> nat
    decreases s.len(),
{
    if s.len() == 0 || !is_space(s.last()) {
        0
    } else {
        1 + space_suffix_len(s.drop_last())
    }
}

/// `s` with leading and trailing space characters removed.
pub open spec fn trim_spec(s: Seq<char>) -> Seq<char> {
    if space_prefix_len(s) == s.len() {
        Seq::empty()
    } else {
        s.subrange(space_prefix_len(s) as int, s.len() - space_suffix_len(s))
    }
}

proof fn lemma_space_prefix_at(s: Seq<char>, i: int)
    requires
        0 <= i <= s.len(),
        forall|k: int| 0 <= k < i ==> is_space(s[k]),
        i == s.len() || !is_space(s[i]),
    ensures
        space_prefix_len(s) == i,
    decreases s.len(),
{
    if i > 0 {
        lemma_space_prefix_at(s.drop_first(), i - 1);
    }
}

proof fn lemma_space_suffix_at(s: Seq<char>, j: int)
    requires
        0 <= j <= s.len(),
        forall|k: int| j <= k < s.len() ==> is_space(s[k]),
        j == 0 || !is_space(s[j - 1]),
    ensures
        space_suffix_len(s) == s.len() - j,
    decreases s.len(),
{
    if j < s.len() {
        assert(forall|k: int|
            j <= k < s.len() - 1 ==> #[trigger] s.drop_last()[k] == s[k]);
        lemma_space_suffix_at(s.drop_last(), j);
    }
}

/// Trims the characters of `s` between `from` and `to`, returning the
/// trimmed piece as an owned string.
pub fn trim_segment(s: &str, from: usize, to: usize) -> (r: String)
    requires
        from <= to <= s@.len(),
    ensures
        r@ == trim_spec(s@.subrange(from as int, to as int)),
{
    let ghost seg = s@.subrange(from as int, to as int);
    let mut a = from;
    loop
        invariant
            from <= a <= to <= s@.len(),
            forall|k: int| from <= k < a ==> is_space(s@[k]),
        ensures
            from <= a <= to,
            forall|k: int| from <= k < a ==> is_space(s@[k]),
            a == to || !is_space(s@[a as int]),
        decreases to - a,
    {
        if a == to {
            break;
        }
        let c = s.get_char(a);
        if !(c == ' ' || c == '\t' || c == '\n' || c == '\r') {
            break;
        }
        a = a + 1;
    }
    proof {
        assert(forall|k: int| 0 <= k < a - from ==> is_space(#[trigger] seg[k]));
        assert(a - from == seg.len() || !is_space(seg[a - from]));
        lemma_space_prefix_at(seg, a - from);
    }
    if a == to {
        proof {
            assert(trim_spec(seg) =~= Seq::<char>::empty());
        }
        return String::new();
    }
    let mut b = to;
    loop
        invariant
            from <= a < b <= to <= s@.len(),
            forall|k: int| b <= k < to ==> is_space(s@[k]),
            !is_space(s@[a as int]),
        ensures
            a < b <= to,
            forall|k: int| b <= k < to ==> is_space(s@[k]),
            !is_space(s@[b - 1]),
        decreases b,
    {
        let c = s.get_char(b - 1);
        if !(c == ' ' || c == '\t' || c == '\n' || c == '\r') {
            break;
        }
        if b - 1 == a {
            break;
        }
        b = b - 1;
    }
    proof {
        assert(forall|k: int|
            b - from <= k < seg.len() ==> is_space(#[trigger] seg[k]));
        assert(!is_space(seg[a - from]));
        assert(b > a);
        assert(!is_space(seg[b - from - 1]));
        lemma_space_suffix_at(seg, b - from);
    }
    let piece = s.substring_char(a, b);
    let r = piece.to_owned();
    proof {
        assert(r@ =~= trim_spec(seg));
    }
    r
}

/// The set of character sequences a vector of strings holds.
pub open spec fn str_set(v: Seq<String>) -> Set<Seq<char>> {
    Set::new(|t: Seq<char>| exists|i: int| 0 <= i < v.len() && v[i]@ == t)
}

/// Strict ascending lexicographic order over a vector of strings; it
/// implies the strings are pairwise distinct.
pub open spec fn strictly_sorted(v: Seq<String>) -> bool {
    forall|i: int, j: int| 0 <= i < j < v.len() ==> lex_lt(v[i]@, v[j]@)
}

/// Inserts `t` into a strictly sorted vector, keeping it strictly sorted;
/// a string already present is not duplicated.
pub fn insert_sorted(v: &mut Vec<String>, t: String)
    requires
        strictly_sorted(old(v)@),
    ensures
        strictly_sorted(final(v)@),
        str_set(final(v)@) == str_set(old(v)@).insert(t@),
{
    let mut i: usize = 0;
    while i < v.len() && str_lex_lt(v[i].as_str(), t.as_str())
        invariant
            0 <= i <= v@.len(),
            forall|k: int| 0 <= k < i ==> lex_lt(v@[k]@, t@),
        decreases v@.len() - i,
    {
        i = i + 1;
    }
    if i < v.len() && str_eq(v[i].as_str(), t.as_str()) {
        proof {
            assert(str_set(v@).contains(t@));
            assert(str_set(v@) =~= str_set(v@).insert(t@));
        }
        return;
    }
    proof {
        if i < v@.len() {
            lemma_lex_connected(v@[i as int]@, t@);
            assert(lex_lt(t@, v@[i as int]@));
        }
    }
    let ghost oldv = v@;
    v.insert(i, t);
    proof {
        assert forall|k: int| i <= k < oldv.len() implies lex_lt(t@, oldv[k]@) by {
            if k > i {
                lemma_lex_transitive(t@, oldv[i as int]@, oldv[k]@);
            }
        }
        assert forall|p: int, q: int| 0 <= p < q < v@.len() implies lex_lt(
            v@[p]@,
            v@[q]@,
        ) by {
            if q < i {
                assert(v@[p]@ == oldv[p]@ && v@[q]@ == oldv[q]@);
            } else if q == i {
                assert(v@[p]@ == oldv[p]@ && lex_lt(oldv[p]@, t@));
            } else if p == i {
                assert(v@[q]@ == oldv[q - 1]@ && lex_lt(t@, oldv[q - 1]@));
            } else if p > i {
                assert(v@[p]@ == oldv[p - 1]@ && v@[q]@ == oldv[q - 1]@);
            } else {
                assert(v@[p]@ == oldv[p]@ && v@[q]@ == oldv[q - 1]@);
                assert(lex_lt(oldv[p]@, t@) && lex_lt(t@, oldv[q - 1]@));
                lemma_lex_transitive(oldv[p]@, t@, oldv[q - 1]@);
            }
        }
        assert(str_set(v@) =~= str_set(oldv).insert(t@)) by {
            assert(forall|k: int|
                0 <= k < oldv.len() ==> v@[if k < i {
                    k
                } else {
                    k + 1
                }]@ == #[trigger] oldv[k]@);
            assert(v@[i as int]@ == t@);
            assert forall|u: Seq<char>| str_set(oldv).insert(t@).contains(u) implies str_set(
                v@,
            ).contains(u) by {
                if u == t@ {
                    assert(v@[i as int]@ == u);
                } else {
                    let k = choose|k: int| 0 <= k < oldv.len() && oldv[k]@ == u;
                    assert(v@[if k < i {
                        k
                    } else {
                        k + 1
                    }]@ == u);
                }
            }
            assert forall|u: Seq<char>| str_set(v@).contains(u) implies str_set(
                oldv,
            ).insert(t@).contains(u) by {
                let k = choose|k: int| 0 <= k < v@.len() && v@[k]@ == u;
                if k != i {
                    assert(oldv[if k < i {
                        k
                    } else {
                        k - 1
                    }]@ == u);
                }
            }
        }
    }
}

/// Relies on String::push: appends the given character to the end of
/// the string.
#[verifier::external_body]
pub fn push_char(s: &mut String, c: char)
    ensures
        final(s)@ == old(s)@ + seq![c],
{
    s.push(c)
}

/// The length of the run of characters from `i` before the next `stop`
/// character (or the end) of `s`.
pub open spec fn run_len(s: Seq<char>, i: int, stop: char) -> nat
    decreases s.len() - i,
{
    if i >= s.len() || i < 0 || s[i] == stop {
        0
    } else {
        1 + run_len(s, i + 1, stop)
    }
}

/// Scans from `from` to the next `stop` character of `s` (or its end),
/// returning the position where the run ends.
pub fn scan_until(s: &str, from: usize, stop: char) -> (r: usize)
    requires
        from <= s@.len(),
    ensures
        r == from + run_len(s@, from as int, stop),
        from <= r <= s@.len(),
        r < s@.len() ==> s@[r as int] == stop,
        forall|k: int| from <= k < r ==> s@[k] != stop,
{
    let len = s.unicode_len();
    let mut j = from;
    loop
        invariant
            from <= j <= len,
            len == s@.len(),
            run_len(s@, from as int, stop) == (j - from) + run_len(s@, j as int, stop),
            forall|k: int| from <= k < j ==> s@[k] != stop,
        ensures
            from <= j <= len,
            j == from + run_len(s@, from as int, stop),
            j < len ==> s@[j as int] == stop,
            forall|k: int| from <= k < j ==> s@[k] != stop,
        decreases len - j,
    {
        if j == len {
            break;
        }
        if s.get_char(j) == stop {
            break;
        }
        j = j + 1;
    }
    j
}

/// Appends `prefix + name` as an owned string.
pub fn concat_str(prefix: &str, name: &str) -> (r: String)
    ensures
        r@ == prefix@ + name@,
{
    let mut r = String::new();
    r.append(prefix);
    r.append(name);
    r
}

/// Whether `s` starts with `prefix`.
pub fn str_starts_with(s: &str, prefix: &str) -> (r: bool)
    ensures
        r == (s@.len() >= prefix@.len() && s@.subrange(0, prefix@.len() as int) == prefix@),
{
    let ls = s.unicode_len();
    let lp = prefix.unicode_len();
    if ls < lp {
        return false;
    }
    let head = s.substring_char(0, lp);
    str_eq(head, prefix)
}

/// Whether `s` ends with `suffix`.
pub fn str_ends_with(s: &str, suffix: &str) -> (r: bool)
    ensures
        r == (s@.len() >= suffix@.len() && s@.subrange(
            s@.len() - suffix@.len(),
            s@.len() as int,
        ) == suffix@),
{
    let ls = s.unicode_len();
    let lx = suffix.unicode_len();
    if ls < lx {
        return false;
    }
    let tail = s.substring_char(ls - lx, ls);
    str_eq(tail, suffix)
}

} // verus!
