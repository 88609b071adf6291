//! The metadata document codec: each photo's metadata is stored as one
//! canonical JSON object, and the catalog parses exactly that canonical
//! form back. Anything else counts as malformed and is skipped by the
//! projection, never surfaced as an error.
//!
//! Canonical form, in one line, keys in this fixed order:
//! `{"createdAt":"<16 hex digits>","creatorEmail":"...","description":"...","tags":["...",...]}`
//! with `"` and `\` escaped by a backslash inside strings, and the
//! creation instant rendered as a fixed-width hex number.
//!
//! The canonical form is a deliberate decision, not an accident: it is
//! this library's own storage format, fixed so that parsing provably
//! inverts serialization (`lemma_meta_roundtrip`). The cost, accepted
//! knowingly: a document in any other JSON shape — keys reordered,
//! whitespace, a timestamp rendered another way — is treated as
//! malformed and skipped by the projection rather than read, and a
//! record dated before 1970 cannot be stored (`meta_to_json` requires a
//! non-negative instant).

use vstd::prelude::*;

use crate::asset::Metadata;
use crate::hex::{all_hex, append_hexn, hexn, hex_val, is_hex_char, lemma_hexn_shape,
    lemma_hexn_value, lemma_pow16_mono, pow16, value_of};
use crate::text::{insert_sorted, push_char, str_set, strictly_sorted};

verus! {

broadcast use vstd::seq_lib::lemma_seq_skip_len, vstd::seq_lib::lemma_seq_skip_index,
    vstd::seq_lib::lemma_seq_skip_of_skip, vstd::seq_lib::lemma_seq_take_index,
    vstd::seq_lib::lemma_seq_append_take_skip;

/// How one character stands inside a JSON string: quotes and backslashes
/// carry a backslash escape, everything else stands as itself.
pub open spec fn esc_char(c: char) -> Seq<char> {
    if c == '"' || c == '\\' {
        seq!['\\', c]
    } else {
        seq![c]
    }
}

/// A string's text inside a JSON string literal.
pub open spec fn json_esc(t: Seq<char>) -> Seq<char>
    decreases t.len(),
{
    if t.len() == 0 {
        Seq::empty()
    } else {
        json_esc(t.drop_last()) + esc_char(t.last())
    }
}

/// The inside of the tags array: each tag quoted and escaped, joined by
/// commas.
pub open spec fn tags_inner(tags: Seq<Seq<char>>) -> Seq<char>
    decreases tags.len(),
{
    if tags.len() == 0 {
        Seq::empty()
    } else if tags.len() == 1 {
        seq!['"'] + json_esc(tags[0]) + seq!['"']
    } else {
        tags_inner(tags.drop_last()) + seq![','] + seq!['"'] + json_esc(tags.last()) + seq!['"']
    }
}

/// The canonical metadata document for the given field values.
pub open spec fn meta_json(
    created_at: int,
    creator: Seq<char>,
    description: Seq<char>,
    tags: Seq<Seq<char>>,
) -> Seq<char> {
    "{\"createdAt\":\""@ + hexn(created_at, 16) + "\",\"creatorEmail\":\""@ + json_esc(creator)
        + "\",\"description\":\""@ + json_esc(description) + "\",\"tags\":["@ + tags_inner(tags)
        + "]}"@
}

/// Appends a string's escaped text.
fn append_escaped(out: &mut String, t: &str)
    ensures
        final(out)@ == old(out)@ + json_esc(t@),
{
    let len = t.unicode_len();
    let mut i: usize = 0;
    proof {
        assert(t@.take(0) =~= Seq::<char>::empty());
        assert(out@ =~= out@ + json_esc(t@.take(0)));
    }
    while i < len
        invariant
            0 <= i <= len,
            len == t@.len(),
            out@ == old(out)@ + json_esc(t@.take(i as int)),
        decreases len - i,
    {
        let c = t.get_char(i);
        if c == '"' || c == '\\' {
            push_char(out, '\\');
        }
        push_char(out, c);
        proof {
            assert(t@.take(i + 1).drop_last() =~= t@.take(i as int));
            assert(t@.take(i + 1).last() == t@[i as int]);
            assert(out@ =~= old(out)@ + json_esc(t@.take(i + 1)));
        }
        i = i + 1;
    }
    proof {
        assert(t@.take(len as int) =~= t@);
    }
}

/// Serializes a metadata record into its canonical document.
pub fn meta_to_json(m: &Metadata) -> (r: String)
    requires
        m.created_at >= 0,
    ensures
        r@ == meta_json(
            m.created_at as int,
            m.creator_email@,
            m.description@,
            m.tags.deep_view(),
        ),
{
    let ghost tags = m.tags.deep_view();
    let mut out = String::new();
    out.append("{\"createdAt\":\"");
    append_hexn(&mut out, m.created_at as u64, 16);
    out.append("\",\"creatorEmail\":\"");
    append_escaped(&mut out, m.creator_email.as_str());
    out.append("\",\"description\":\"");
    append_escaped(&mut out, m.description.as_str());
    out.append("\",\"tags\":[");
    let ghost head = "{\"createdAt\":\""@ + hexn(m.created_at as int, 16)
        + "\",\"creatorEmail\":\""@ + json_esc(m.creator_email@) + "\",\"description\":\""@
        + json_esc(m.description@) + "\",\"tags\":["@;
    let mut i: usize = 0;
    proof {
        assert(m.created_at as u64 as int == m.created_at as int);
        assert(out@ =~= head + tags_inner(tags.take(0)));
    }
    while i < m.tags.len()
        invariant
            0 <= i <= tags.len(),
            tags == m.tags.deep_view(),
            out@ == head + tags_inner(tags.take(i as int)),
        decreases tags.len() - i,
    {
        if i > 0 {
            push_char(&mut out, ',');
        }
        push_char(&mut out, '"');
        append_escaped(&mut out, m.tags[i].as_str());
        push_char(&mut out, '"');
        proof {
            assert(tags.take(i + 1).drop_last() =~= tags.take(i as int));
            assert(tags.take(i + 1).last() == tags[i as int]);
            if i == 0 {
                assert(tags.take(1).len() == 1);
                assert(tags_inner(tags.take(1)) == seq!['"'] + json_esc(tags[0]) + seq!['"']);
            }
            assert(out@ =~= head + tags_inner(tags.take(i + 1)));
        }
        i = i + 1;
    }
    out.append("]}");
    proof {
        assert(tags.take(tags.len() as int) =~= tags);
        assert(out@ =~= meta_json(
            m.created_at as int,
            m.creator_email@,
            m.description@,
            tags,
        ));
    }
    out
}

/// Whether the literal `lit` stands in `s` at position `i`.
pub open spec fn lit_at(s: Seq<char>, i: int, lit: Seq<char>) -> bool {
    0 <= i && i + lit.len() <= s.len() && s.subrange(i, i + lit.len()) == lit
}

/// Parses a JSON string body from position `i` up to and including its
/// closing quote: only `\"` and `\\` escapes are understood.
pub open spec fn str_parse(s: Seq<char>, i: int) -> Option<(Seq<char>, int)>
    decreases s.len() - i,
{
    if i < 0 || i >= s.len() {
        None
    } else if s[i] == '"' {
        Some((Seq::empty(), i + 1))
    } else if s[i] == '\\' {
        if i + 1 >= s.len() {
            None
        } else if s[i + 1] == '"' || s[i + 1] == '\\' {
            match str_parse(s, i + 2) {
                None => None,
                Some((t, j)) => Some((seq![s[i + 1]] + t, j)),
            }
        } else {
            None
        }
    } else {
        match str_parse(s, i + 1) {
            None => None,
            Some((t, j)) => Some((seq![s[i]] + t, j)),
        }
    }
}

/// A successful string parse moves the position forward.
proof fn lemma_str_parse_progress(s: Seq<char>, i: int)
    requires
        str_parse(s, i) is Some,
    ensures
        i + 1 <= str_parse(s, i).unwrap().1 <= s.len(),
    decreases s.len() - i,
{
    if s[i] == '"' {
    } else if s[i] == '\\' {
        lemma_str_parse_progress(s, i + 2);
    } else {
        lemma_str_parse_progress(s, i + 1);
    }
}

/// Parses the remainder of a tags array after one element, through the
/// closing bracket.
pub open spec fn tags_rest(s: Seq<char>, i: int) -> Option<(Seq<Seq<char>>, int)>
    decreases s.len() - i,
{
    if i < 0 || i >= s.len() {
        None
    } else if s[i] == ']' {
        Some((Seq::empty(), i + 1))
    } else if s[i] == ',' && i + 1 < s.len() && s[i + 1] == '"' {
        match str_parse(s, i + 2) {
            None => None,
            Some((t, j)) => if j <= i + 1 || j > s.len() {
                None
            } else {
                match tags_rest(s, j) {
                    None => None,
                    Some((ts, k)) => Some((seq![t] + ts, k)),
                }
            },
        }
    } else {
        None
    }
}

/// Parses a whole tags array from its first element (or its immediate
/// closing bracket), through the closing bracket.
pub open spec fn tags_parse(s: Seq<char>, i: int) -> Option<(Seq<Seq<char>>, int)> {
    if i < 0 || i >= s.len() {
        None
    } else if s[i] == ']' {
        Some((Seq::empty(), i + 1))
    } else if s[i] == '"' {
        match str_parse(s, i + 1) {
            None => None,
            Some((t, j)) => match tags_rest(s, j) {
                None => None,
                Some((ts, k)) => Some((seq![t] + ts, k)),
            },
        }
    } else {
        None
    }
}

/// The outcome of parsing a metadata document: the field values of the
/// canonical form.
#[verifier::ext_equal]
pub ghost struct MetaFields {
    pub created_at: int,
    pub creator: Seq<char>,
    pub description: Seq<char>,
    pub tags: Seq<Seq<char>>,
}

/// Parses a metadata document, refusing anything but the canonical
/// form (tag order and duplication excepted).
pub open spec fn meta_parse(s: Seq<char>) -> Option<MetaFields> {
    let k1 = "{\"createdAt\":\""@;
    let k2 = "\",\"creatorEmail\":\""@;
    let k3 = ",\"description\":\""@;
    let k4 = ",\"tags\":["@;
    if !lit_at(s, 0, k1) {
        None
    } else if k1.len() + 16 > s.len() {
        None
    } else {
        let digits = s.subrange(k1.len() as int, k1.len() as int + 16);
        if !all_hex(digits) {
            None
        } else if value_of(digits) > i64::MAX {
            None
        } else if !lit_at(s, k1.len() as int + 16, k2) {
            None
        } else {
            match str_parse(s, k1.len() as int + 16 + k2.len() as int) {
                None => None,
                Some((creator, i3)) => if !lit_at(s, i3, k3) {
                    None
                } else {
                    match str_parse(s, i3 + k3.len() as int) {
                        None => None,
                        Some((description, i4)) => if !lit_at(s, i4, k4) {
                            None
                        } else {
                            match tags_parse(s, i4 + k4.len() as int) {
                                None => None,
                                Some((tags, i5)) => if i5 + 1 == s.len() && s[i5] == '}' {
                                    Some(
                                        MetaFields {
                                            created_at: value_of(digits),
                                            creator,
                                            description,
                                            tags,
                                        },
                                    )
                                } else {
                                    None
                                },
                            }
                        },
                    }
                },
            }
        }
    }
}

/// Whether the literal stands in `s` at `i`, decided.
fn expect_lit(s: &str, i: usize, lit: &str) -> (r: bool)
    requires
        i <= s@.len(),
    ensures
        r == lit_at(s@, i as int, lit@),
{
    let ll = lit.unicode_len();
    let ls = s.unicode_len();
    if ll > ls - i {
        return false;
    }
    let piece = s.substring_char(i, i + ll);
    let r = crate::text::str_eq(piece, lit);
    proof {
        assert(piece@ =~= s@.subrange(i as int, i as int + lit@.len()));
    }
    r
}

/// Parses a JSON string body, as `str_parse` does.
fn parse_string(s: &str, i: usize) -> (r: Option<(String, usize)>)
    requires
        i <= s@.len(),
    ensures
        match r {
            Some(p) => str_parse(s@, i as int) == Some((p.0@, p.1 as int)) && i < p.1 <= s@.len(),
            None => str_parse(s@, i as int) is None,
        },
{
    let len = s.unicode_len();
    let mut out = String::new();
    let mut j = i;
    loop
        invariant
            i <= j <= len,
            len == s@.len(),
            forall|t: Seq<char>, e: int|
                str_parse(s@, j as int) == Some::<(Seq<char>, int)>((t, e)) ==> str_parse(
                    s@,
                    i as int,
                ) == Some::<(Seq<char>, int)>((out@ + t, e)),
            str_parse(s@, j as int) is None ==> str_parse(s@, i as int) is None,
        decreases len - j,
    {
        if j == len {
            proof {
                assert(str_parse(s@, j as int) is None);
            }
            return None;
        }
        let c = s.get_char(j);
        if c == '"' {
            proof {
                assert(str_parse(s@, j as int) == Some::<(Seq<char>, int)>((
                    Seq::empty(),
                    j + 1,
                )));
                assert(out@ + Seq::<char>::empty() =~= out@);
            }
            return Some((out, j + 1));
        }
        if c == '\\' {
            if j + 1 == len {
                proof {
                    assert(str_parse(s@, j as int) is None);
                }
                return None;
            }
            let c2 = s.get_char(j + 1);
            if c2 == '"' || c2 == '\\' {
                let ghost pre = out@;
                push_char(&mut out, c2);
                proof {
                    assert forall|t: Seq<char>, e: int|
                        str_parse(s@, j + 2) == Some::<(Seq<char>, int)>((t, e))
                            implies str_parse(s@, i as int) == Some::<(Seq<char>, int)>((
                        out@ + t,
                        e,
                    )) by {
                        assert(str_parse(s@, j as int) == Some::<(Seq<char>, int)>((
                            seq![s@[j + 1]] + t,
                            e,
                        )));
                        assert(pre + (seq![s@[j + 1]] + t) =~= out@ + t);
                    }
                }
                j = j + 2;
            } else {
                proof {
                    assert(str_parse(s@, j as int) is None);
                }
                return None;
            }
        } else {
            let ghost pre = out@;
            push_char(&mut out, c);
            proof {
                assert forall|t: Seq<char>, e: int|
                    str_parse(s@, j + 1) == Some::<(Seq<char>, int)>((t, e))
                        implies str_parse(s@, i as int) == Some::<(Seq<char>, int)>((
                    out@ + t,
                    e,
                )) by {
                    assert(str_parse(s@, j as int) == Some::<(Seq<char>, int)>((
                        seq![s@[j as int]] + t,
                        e,
                    )));
                    assert(pre + (seq![s@[j as int]] + t) =~= out@ + t);
                }
            }
            j = j + 1;
        }
    }
}

/// Parses a whole tags array, as `tags_parse` does.
fn parse_tags_array(s: &str, i: usize) -> (r: Option<(Vec<String>, usize)>)
    requires
        i <= s@.len(),
    ensures
        match r {
            Some(p) => tags_parse(s@, i as int) == Some((p.0.deep_view(), p.1 as int)) && p.1
                <= s@.len(),
            None => tags_parse(s@, i as int) is None,
        },
{
    let len = s.unicode_len();
    if i == len {
        return None;
    }
    let c0 = s.get_char(i);
    if c0 == ']' {
        let out: Vec<String> = Vec::new();
        proof {
            assert(out.deep_view() =~= Seq::<Seq<char>>::empty());
        }
        return Some((out, i + 1));
    }
    if c0 != '"' {
        return None;
    }
    match parse_string(s, i + 1) {
        None => None,
        Some((t0, first_end)) => {
            let mut out: Vec<String> = Vec::new();
            let ghost t0v = t0@;
            out.push(t0);
            let mut j = first_end;
            proof {
                assert(out.deep_view() =~= seq![t0v]);
            }
            loop
                invariant
                    i < j <= len,
                    len == s@.len(),
                    forall|ts: Seq<Seq<char>>, e: int|
                        tags_rest(s@, j as int) == Some::<(Seq<Seq<char>>, int)>((ts, e))
                            ==> tags_parse(s@, i as int) == Some::<(Seq<Seq<char>>, int)>((
                            out.deep_view() + ts,
                            e,
                        )),
                    tags_rest(s@, j as int) is None ==> tags_parse(s@, i as int) is None,
                decreases len - j,
            {
                if j == len {
                    proof {
                        assert(tags_rest(s@, j as int) is None);
                    }
                    return None;
                }
                let c = s.get_char(j);
                if c == ']' {
                    proof {
                        assert(tags_rest(s@, j as int) == Some::<(Seq<Seq<char>>, int)>((
                            Seq::empty(),
                            j + 1,
                        )));
                        assert(out.deep_view() + Seq::<Seq<char>>::empty()
                            =~= out.deep_view());
                    }
                    return Some((out, j + 1));
                }
                if c != ',' {
                    proof {
                        assert(tags_rest(s@, j as int) is None);
                    }
                    return None;
                }
                if j + 1 == len {
                    proof {
                        assert(tags_rest(s@, j as int) is None);
                    }
                    return None;
                }
                if s.get_char(j + 1) != '"' {
                    proof {
                        assert(tags_rest(s@, j as int) is None);
                    }
                    return None;
                }
                match parse_string(s, j + 2) {
                    None => {
                        proof {
                            assert(tags_rest(s@, j as int) is None);
                        }
                        return None;
                    },
                    Some((t, j2)) => {
                        let ghost pre = out.deep_view();
                        let ghost tv = t@;
                        out.push(t);
                        proof {
                            assert(out.deep_view() =~= pre.push(tv));
                            assert forall|ts: Seq<Seq<char>>, e: int|
                                tags_rest(s@, j2 as int) == Some::<(Seq<Seq<char>>, int)>((
                                    ts,
                                    e,
                                )) implies tags_parse(s@, i as int) == Some::<(
                                Seq<Seq<char>>,
                                int,
                            )>((out.deep_view() + ts, e)) by {
                                assert(tags_rest(s@, j as int) == Some::<(
                                    Seq<Seq<char>>,
                                    int,
                                )>((seq![tv] + ts, e)));
                                assert(pre + (seq![tv] + ts) =~= out.deep_view() + ts);
                            }
                        }
                        j = j2;
                    },
                }
            }
        },
    }
}

/// The set of tags a parsed tag list denotes.
pub open spec fn tag_set_of(ss: Seq<Seq<char>>) -> Set<Seq<char>> {
    Set::new(|t: Seq<char>| ss.contains(t))
}

/// Parses a metadata document into a well-formed record: the canonical
/// fields, with the tag list collapsed into its sorted set. Anything
/// `meta_parse` refuses is refused.
#[verifier::loop_isolation(false)]
pub fn meta_from_json(s: &str) -> (r: Option<Metadata>)
    ensures
        match meta_parse(s@) {
            None => r is None,
            Some(f) => r matches Some(m) && m.wf() && m.created_at as int == f.created_at
                && m.creator_email@ == f.creator && m.description@ == f.description && str_set(
                m.tags@,
            ) == tag_set_of(f.tags),
        },
{
    let len = s.unicode_len();
    if !expect_lit(s, 0, "{\"createdAt\":\"") {
        return None;
    }
    let k1l = "{\"createdAt\":\"".unicode_len();
    if 16 > len - k1l {
        return None;
    }
    let ghost digits = s@.subrange(k1l as int, k1l as int + 16);
    let mut acc: u64 = 0;
    let mut j: usize = 0;
    proof {
        assert(digits.take(0) =~= Seq::<char>::empty());
        assert(pow16(16) == 0x10000000000000000) by {
            reveal_with_fuel(pow16, 17);
        }
    }
    while j < 16
        invariant
            0 <= j <= 16,
            k1l + 16 <= len,
            len == s@.len(),
            digits == s@.subrange(k1l as int, k1l as int + 16),
            all_hex(digits.take(j as int)),
            acc == value_of(digits.take(j as int)),
            acc < pow16(j as nat),
            pow16(16) == 0x10000000000000000,
        decreases 16 - j,
    {
        let c = s.get_char(k1l + j);
        proof {
            assert(digits[j as int] == c);
        }
        match hex_val(c) {
            Some(v) => {
                proof {
                    let pre = digits.take(j as int);
                    let cur = digits.take(j + 1);
                    assert(cur.drop_last() =~= pre);
                    assert(cur.last() == c);
                    lemma_pow16_mono(j as nat, 15);
                    assert(pow16(15) == 0x1000000000000000) by {
                        reveal_with_fuel(pow16, 16);
                    }
                    assert(acc * 16 + 15 < pow16((j + 1) as nat)) by (nonlinear_arith)
                        requires
                            acc < pow16(j as nat),
                            pow16((j + 1) as nat) == 16 * pow16(j as nat),
                    ;
                }
                acc = acc * 16 + (v as u64);
            },
            None => {
                proof {
                    assert(!is_hex_char(digits[j as int]));
                    assert(!all_hex(digits));
                }
                return None;
            },
        }
        j = j + 1;
    }
    proof {
        assert(digits.take(16) =~= digits);
    }
    if acc > 0x7fffffffffffffff {
        return None;
    }
    let created_at: i64 = acc as i64;
    if !expect_lit(s, k1l + 16, "\",\"creatorEmail\":\"") {
        return None;
    }
    let k2l = "\",\"creatorEmail\":\"".unicode_len();
    let (creator, i3) = match parse_string(s, k1l + 16 + k2l) {
        None => {
            return None;
        },
        Some(p) => p,
    };
    if !expect_lit(s, i3, ",\"description\":\"") {
        return None;
    }
    let k3l = ",\"description\":\"".unicode_len();
    let (description, i4) = match parse_string(s, i3 + k3l) {
        None => {
            return None;
        },
        Some(p) => p,
    };
    if !expect_lit(s, i4, ",\"tags\":[") {
        return None;
    }
    let k4l = ",\"tags\":[".unicode_len();
    let (raw_tags, i5) = match parse_tags_array(s, i4 + k4l) {
        None => {
            return None;
        },
        Some(p) => p,
    };
    if i5 == len || i5 + 1 != len {
        return None;
    }
    if s.get_char(i5) != '}' {
        return None;
    }
    let ghost raw = raw_tags.deep_view();
    let mut tags: Vec<String> = Vec::new();
    let mut k: usize = 0;
    proof {
        assert(str_set(tags@) =~= tag_set_of(raw.take(0)));
    }
    while k < raw_tags.len()
        invariant
            0 <= k <= raw.len(),
            raw == raw_tags.deep_view(),
            strictly_sorted(tags@),
            str_set(tags@) == tag_set_of(raw.take(k as int)),
        decreases raw.len() - k,
    {
        let ghost pre = str_set(tags@);
        insert_sorted(&mut tags, raw_tags[k].clone());
        proof {
            assert(str_set(tags@) =~= tag_set_of(raw.take(k + 1))) by {
                assert(str_set(tags@) == pre.insert(raw[k as int]));
                assert forall|t: Seq<char>|
                    tag_set_of(raw.take(k + 1)).contains(t) implies pre.insert(
                    raw[k as int],
                ).contains(t) by {
                    let w = choose|w: int| 0 <= w < k + 1 && #[trigger] raw.take(k + 1)[w] == t;
                    if w < k {
                        assert(raw.take(k as int)[w] == t);
                        assert(tag_set_of(raw.take(k as int)).contains(t));
                    }
                }
                assert forall|t: Seq<char>|
                    pre.insert(raw[k as int]).contains(t) implies tag_set_of(
                    raw.take(k + 1),
                ).contains(t) by {
                    if t == raw[k as int] {
                        assert(raw.take(k + 1)[k as int] == t);
                    } else {
                        let w = choose|w: int| 0 <= w < k && #[trigger] raw.take(k as int)[w] == t;
                        assert(raw.take(k + 1)[w] == t);
                    }
                }
            }
        }
        k = k + 1;
    }
    proof {
        assert(raw.take(raw.len() as int) =~= raw);
    }
    Some(Metadata { creator_email: creator, created_at, tags, description })
}

/// An escaped string starts with its first character's escape.
proof fn lemma_esc_first(t: Seq<char>)
    requires
        t.len() >= 1,
    ensures
        json_esc(t) == esc_char(t[0]) + json_esc(t.drop_first()),
    decreases t.len(),
{
    if t.len() == 1 {
        assert(t.drop_last() =~= Seq::<char>::empty());
        assert(t.drop_first() =~= Seq::<char>::empty());
        assert(json_esc(t) =~= esc_char(t[0]) + json_esc(t.drop_first()));
    } else {
        lemma_esc_first(t.drop_last());
        assert(t.drop_last()[0] == t[0]);
        assert(t.drop_last().drop_first() =~= t.drop_first().drop_last());
        assert(t.drop_first().last() == t.last());
        assert(json_esc(t) == json_esc(t.drop_last()) + esc_char(t.last()));
        assert(esc_char(t[0]) + json_esc(t.drop_first().drop_last()) + esc_char(
            t.drop_first().last(),
        ) =~= esc_char(t[0]) + (json_esc(t.drop_first().drop_last()) + esc_char(
            t.drop_first().last(),
        )));
    }
}

/// Parsing a string body inverts escaping, wherever the escaped text
/// stands, up to its closing quote.
proof fn lemma_str_parse_esc(s: Seq<char>, i: int, t: Seq<char>, tail: Seq<char>)
    requires
        0 <= i <= s.len(),
        s.skip(i) == json_esc(t) + seq!['"'] + tail,
    ensures
        str_parse(s, i) == Some((t, i + json_esc(t).len() + 1)),
    decreases t.len(),
{
    if t.len() == 0 {
        assert(json_esc(t).len() == 0);
        assert(s.skip(i).len() == s.len() - i);
        assert(i < s.len());
        assert((json_esc(t) + seq!['"'] + tail)[0] == '"');
        assert(s.skip(i)[0] == '"');
        assert(s[i] == '"');
        assert(str_parse(s, i) == Some((Seq::<char>::empty(), i + 1)));
        assert(Seq::<char>::empty() =~= t);
    } else {
        lemma_esc_first(t);
        let e0 = esc_char(t[0]);
        let erest = json_esc(t.drop_first());
        assert(json_esc(t).len() == e0.len() + erest.len());
        if t[0] == '"' || t[0] == '\\' {
            assert(e0 == seq!['\\', t[0]]);
            assert(s.skip(i).len() == s.len() - i);
            assert(s.skip(i)[0] == '\\');
            assert(s.skip(i)[1] == t[0]);
            assert(s[i] == '\\');
            assert(s[i + 1] == t[0]);
            assert(i + 2 <= s.len());
            assert(s.skip(i + 2) =~= erest + seq!['"'] + tail) by {
                assert(json_esc(t) + seq!['"'] + tail =~= e0 + (erest + seq!['"'] + tail));
                assert(s.skip(i).skip(2) == s.skip(i + 2));
                assert((e0 + (erest + seq!['"'] + tail)).skip(2) =~= erest + seq!['"']
                    + tail);
            }
            lemma_str_parse_esc(s, i + 2, t.drop_first(), tail);
            assert(seq![s[i + 1]] + t.drop_first() =~= t);
        } else {
            assert(e0 == seq![t[0]]);
            assert(s.skip(i).len() == s.len() - i);
            assert(s.skip(i)[0] == t[0]);
            assert(s[i] == t[0]);
            assert(s[i] != '"' && s[i] != '\\');
            assert(s.skip(i + 1) =~= erest + seq!['"'] + tail) by {
                assert(json_esc(t) + seq!['"'] + tail =~= e0 + (erest + seq!['"'] + tail));
                assert(s.skip(i).skip(1) == s.skip(i + 1));
                assert((e0 + (erest + seq!['"'] + tail)).skip(1) =~= erest + seq!['"']
                    + tail);
            }
            lemma_str_parse_esc(s, i + 1, t.drop_first(), tail);
            assert(seq![s[i]] + t.drop_first() =~= t);
        }
    }
}

/// A non-empty tags array's text starts with its first quoted element.
proof fn lemma_tags_inner_first(tags: Seq<Seq<char>>)
    requires
        tags.len() >= 1,
    ensures
        tags_inner(tags) == seq!['"'] + json_esc(tags[0]) + seq!['"'] + (if tags.len() == 1 {
            Seq::<char>::empty()
        } else {
            seq![','] + tags_inner(tags.drop_first())
        }),
    decreases tags.len(),
{
    if tags.len() == 1 {
        assert(tags_inner(tags) =~= seq!['"'] + json_esc(tags[0]) + seq!['"']
            + Seq::<char>::empty());
    } else if tags.len() == 2 {
        assert(tags.drop_last().len() == 1);
        assert(tags.drop_last()[0] == tags[0]);
        assert(tags.drop_first().len() == 1);
        assert(tags.drop_first()[0] == tags[1]);
        assert(tags.last() == tags[1]);
        assert(tags_inner(tags.drop_last()) == seq!['"'] + json_esc(tags.drop_last()[0])
            + seq!['"']);
        assert(tags_inner(tags.drop_first()) == seq!['"'] + json_esc(tags.drop_first()[0])
            + seq!['"']);
        assert(tags_inner(tags) =~= seq!['"'] + json_esc(tags[0]) + seq!['"'] + (seq![',']
            + tags_inner(tags.drop_first())));
    } else {
        lemma_tags_inner_first(tags.drop_last());
        assert(tags.drop_last()[0] == tags[0]);
        assert(tags.drop_last().drop_first() =~= tags.drop_first().drop_last());
        assert(tags.drop_first().last() == tags.last());
        assert(tags.drop_first().len() >= 2);
        assert(tags_inner(tags) == tags_inner(tags.drop_last()) + seq![','] + seq!['"']
            + json_esc(tags.last()) + seq!['"']);
        assert(tags_inner(tags.drop_last()) == seq!['"'] + json_esc(tags[0]) + seq!['"'] + (seq![
            ',',
        ] + tags_inner(tags.drop_first().drop_last())));
        assert(tags_inner(tags.drop_first()) == tags_inner(tags.drop_first().drop_last())
            + seq![','] + seq!['"'] + json_esc(tags.drop_first().last()) + seq!['"']);
        assert(seq!['"'] + json_esc(tags[0]) + seq!['"'] + (seq![','] + tags_inner(
            tags.drop_first().drop_last(),
        )) + seq![','] + seq!['"'] + json_esc(tags.last()) + seq!['"'] =~= seq!['"'] + json_esc(
            tags[0],
        ) + seq!['"'] + (seq![','] + tags_inner(tags.drop_first())));
    }
}

/// Parsing the remainder of an array inverts encoding the remaining
/// elements, through the closing bracket.
proof fn lemma_tags_rest_enc(s: Seq<char>, j: int, rest: Seq<Seq<char>>, tail: Seq<char>)
    requires
        0 <= j <= s.len(),
        rest.len() == 0 ==> s.skip(j) == seq![']'] + tail,
        rest.len() > 0 ==> s.skip(j) == seq![','] + tags_inner(rest) + seq![']'] + tail,
    ensures
        tags_rest(s, j) == Some(
            (
                rest,
                if rest.len() == 0 {
                    j + 1
                } else {
                    j + 1 + tags_inner(rest).len() + 1
                },
            ),
        ),
    decreases rest.len(),
{
    if rest.len() == 0 {
        assert(s.skip(j).len() == s.len() - j);
        assert(s.skip(j)[0] == ']');
        assert(s[j] == ']');
        assert(Seq::<Seq<char>>::empty() =~= rest);
    } else {
        lemma_tags_inner_first(rest);
        let e0 = json_esc(rest[0]);
        assert(s.skip(j).len() == s.len() - j);
        assert((seq![','] + tags_inner(rest) + seq![']'] + tail)[0] == ',');
        assert(s.skip(j)[0] == ',');
        assert(s[j] == ',');
        assert(tags_inner(rest)[0] == '"');
        assert((seq![','] + tags_inner(rest) + seq![']'] + tail)[1] == '"');
        assert(s.skip(j)[1] == '"');
        assert(s[j + 1] == '"');
        assert(j + 2 <= s.len());
        let more: Seq<char> = if rest.len() == 1 {
            Seq::empty()
        } else {
            seq![','] + tags_inner(rest.drop_first())
        };
        assert(s.skip(j + 2) =~= e0 + seq!['"'] + (more + seq![']'] + tail)) by {
            assert(tags_inner(rest) == seq!['"'] + e0 + seq!['"'] + more);
            assert(seq![','] + tags_inner(rest) + seq![']'] + tail =~= (seq![',', '"']) + ((
            e0 + seq!['"']) + (more + seq![']'] + tail)));
            assert(s.skip(j).skip(2) == s.skip(j + 2));
            assert(((seq![',', '"']) + ((e0 + seq!['"']) + (more + seq![']'] + tail))).skip(2)
                =~= (e0 + seq!['"']) + (more + seq![']'] + tail));
            assert((e0 + seq!['"']) + (more + seq![']'] + tail) =~= e0 + seq!['"'] + (more
                + seq![']'] + tail));
        }
        lemma_str_parse_esc(s, j + 2, rest[0], more + seq![']'] + tail);
        let j2 = j + 2 + e0.len() + 1;
        assert(str_parse(s, j + 2) == Some((rest[0], j2)));
        lemma_str_parse_progress(s, j + 2);
        assert(j2 > j + 1 && j2 <= s.len());
        assert(s.skip(j2) =~= more + seq![']'] + tail) by {
            assert(tags_inner(rest) == seq!['"'] + e0 + seq!['"'] + more);
            assert(seq![','] + tags_inner(rest) + seq![']'] + tail =~= (seq![','] + (seq![
                '"',
            ] + e0 + seq!['"'])) + (more + seq![']'] + tail));
            assert((seq![','] + (seq!['"'] + e0 + seq!['"'])).len() == j2 - j);
            assert(s.skip(j).skip(j2 - j) == s.skip(j2));
            assert(((seq![','] + (seq!['"'] + e0 + seq!['"'])) + (more + seq![']']
                + tail)).skip(j2 - j) =~= more + seq![']'] + tail);
        }
        lemma_tags_rest_enc(s, j2, rest.drop_first(), tail);
        assert(seq![rest[0]] + rest.drop_first() =~= rest);
    }
}

/// Parsing a whole array inverts encoding its elements, through the
/// closing bracket.
proof fn lemma_tags_parse_enc(s: Seq<char>, i: int, tags: Seq<Seq<char>>, tail: Seq<char>)
    requires
        0 <= i <= s.len(),
        s.skip(i) == tags_inner(tags) + seq![']'] + tail,
    ensures
        tags_parse(s, i) == Some((tags, i + tags_inner(tags).len() + 1)),
{
    if tags.len() == 0 {
        assert(s.skip(i).len() == s.len() - i);
        assert(s.skip(i)[0] == ']');
        assert(s[i] == ']');
        assert(Seq::<Seq<char>>::empty() =~= tags);
    } else {
        lemma_tags_inner_first(tags);
        let e0 = json_esc(tags[0]);
        assert(s.skip(i).len() == s.len() - i);
        assert(tags_inner(tags)[0] == '"');
        assert((tags_inner(tags) + seq![']'] + tail)[0] == '"');
        assert(s.skip(i)[0] == '"');
        assert(s[i] == '"');
        let more: Seq<char> = if tags.len() == 1 {
            Seq::empty()
        } else {
            seq![','] + tags_inner(tags.drop_first())
        };
        assert(s.skip(i + 1) =~= e0 + seq!['"'] + (more + seq![']'] + tail)) by {
            assert(tags_inner(tags) == seq!['"'] + e0 + seq!['"'] + more);
            assert(tags_inner(tags) + seq![']'] + tail =~= seq!['"'] + ((e0 + seq!['"']) + (
            more + seq![']'] + tail)));
            assert(s.skip(i).skip(1) == s.skip(i + 1));
            assert((seq!['"'] + ((e0 + seq!['"']) + (more + seq![']'] + tail))).skip(1)
                =~= (e0 + seq!['"']) + (more + seq![']'] + tail));
            assert((e0 + seq!['"']) + (more + seq![']'] + tail) =~= e0 + seq!['"'] + (more
                + seq![']'] + tail));
        }
        lemma_str_parse_esc(s, i + 1, tags[0], more + seq![']'] + tail);
        let j = i + 1 + e0.len() + 1;
        lemma_str_parse_progress(s, i + 1);
        assert(s.skip(j) =~= more + seq![']'] + tail) by {
            assert(tags_inner(tags) == seq!['"'] + e0 + seq!['"'] + more);
            assert(tags_inner(tags) + seq![']'] + tail =~= ((seq!['"'] + e0 + seq!['"'])) + (
            more + seq![']'] + tail));
            assert((seq!['"'] + e0 + seq!['"']).len() == j - i);
            assert(s.skip(i).skip(j - i) == s.skip(j));
            assert((((seq!['"'] + e0 + seq!['"'])) + (more + seq![']'] + tail)).skip(j - i)
                =~= more + seq![']'] + tail);
        }
        lemma_tags_rest_enc(s, j, tags.drop_first(), tail);
        assert(seq![tags[0]] + tags.drop_first() =~= tags);
    }
}

/// Concatenation is associative.
proof fn lemma_assoc(a: Seq<char>, b: Seq<char>, c: Seq<char>)
    ensures
        (a + b) + c == a + (b + c),
{
    assert((a + b) + c =~= a + (b + c));
}

/// The canonical document, fully right-associated, with the parser's
/// literals in place of the serializer's.
proof fn lemma_meta_shape(
    created_at: int,
    creator: Seq<char>,
    description: Seq<char>,
    tags: Seq<Seq<char>>,
)
    requires
        0 <= created_at,
    ensures
        meta_json(created_at, creator, description, tags) == "{\"createdAt\":\""@ + (hexn(
            created_at,
            16,
        ) + ("\",\"creatorEmail\":\""@ + (json_esc(creator) + (seq!['"'] + (
        ",\"description\":\""@ + (json_esc(description) + (seq!['"'] + (",\"tags\":["@ + (
        tags_inner(tags) + (seq![']'] + seq!['}'])))))))))),
{
    let k1 = "{\"createdAt\":\""@;
    let k2 = "\",\"creatorEmail\":\""@;
    let k3e = "\",\"description\":\""@;
    let k3 = ",\"description\":\""@;
    let k4e = "\",\"tags\":["@;
    let k4 = ",\"tags\":["@;
    let endl = "]}"@;
    reveal_strlit("{\"createdAt\":\"");
    reveal_strlit("\",\"creatorEmail\":\"");
    reveal_strlit("\",\"description\":\"");
    reveal_strlit(",\"description\":\"");
    reveal_strlit("\",\"tags\":[");
    reveal_strlit(",\"tags\":[");
    reveal_strlit("]}");
    let h = hexn(created_at, 16);
    let ec = json_esc(creator);
    let ed = json_esc(description);
    let inner = tags_inner(tags);
    assert(k3e =~= seq!['"'] + k3);
    assert(k4e =~= seq!['"'] + k4);
    assert(endl =~= seq![']'] + seq!['}']);
    let l1 = k1 + h;
    let l2 = l1 + k2;
    let l3 = l2 + ec;
    let l4 = l3 + k3e;
    let l5 = l4 + ed;
    let l6 = l5 + k4e;
    let l7 = l6 + inner;
    assert(meta_json(created_at, creator, description, tags) == l7 + endl);
    lemma_assoc(l6, inner, endl);
    lemma_assoc(l5, k4e, inner + endl);
    lemma_assoc(l4, ed, k4e + (inner + endl));
    lemma_assoc(l3, k3e, ed + (k4e + (inner + endl)));
    lemma_assoc(l2, ec, k3e + (ed + (k4e + (inner + endl))));
    lemma_assoc(l1, k2, ec + (k3e + (ed + (k4e + (inner + endl)))));
    lemma_assoc(k1, h, k2 + (ec + (k3e + (ed + (k4e + (inner + endl))))));
    // split the three literals that carry a closing quote or bracket
    lemma_assoc(seq!['"'], k3, ed + (k4e + (inner + endl)));
    lemma_assoc(seq!['"'], k4, inner + endl);
    lemma_assoc(seq![']'], seq!['}'], Seq::empty());
    assert(seq![']'] + seq!['}'] + Seq::<char>::empty() =~= seq![']'] + seq!['}']);
    assert(inner + endl == inner + (seq![']'] + seq!['}']));
    assert(k4e + (inner + endl) == seq!['"'] + (k4 + (inner + (seq![']'] + seq!['}']))));
    assert(ed + (k4e + (inner + endl)) == ed + (seq!['"'] + (k4 + (inner + (seq![']'] + seq![
        '}',
    ])))));
    assert(k3e + (ed + (k4e + (inner + endl))) == seq!['"'] + (k3 + (ed + (seq!['"'] + (k4 + (
    inner + (seq![']'] + seq!['}'])))))));
}

/// A literal standing at the head of the remaining text is recognized,
/// and the position moves past it.
proof fn lemma_peel_lit(s: Seq<char>, i: int, lit: Seq<char>, rest: Seq<char>)
    requires
        0 <= i <= s.len(),
        s.skip(i) == lit + rest,
    ensures
        lit_at(s, i, lit),
        s.skip(i + lit.len()) == rest,
        s.subrange(i, i + lit.len()) == lit,
        i + lit.len() <= s.len(),
{
    assert(s.skip(i).len() == s.len() - i);
    assert((lit + rest).take(lit.len() as int) =~= lit);
    assert((lit + rest).skip(lit.len() as int) =~= rest);
    assert(s.skip(i).take(lit.len() as int) =~= s.subrange(i, i + lit.len()));
    assert(s.skip(i).skip(lit.len() as int) == s.skip(i + lit.len()));
}

/// An escaped string with its closing quote at the head of the
/// remaining text parses back exactly, and the position moves past the
/// quote.
proof fn lemma_peel_string(s: Seq<char>, i: int, t: Seq<char>, tail: Seq<char>)
    requires
        0 <= i <= s.len(),
        s.skip(i) == json_esc(t) + (seq!['"'] + tail),
    ensures
        str_parse(s, i) == Some((t, i + json_esc(t).len() + 1)),
        s.skip(i + json_esc(t).len() + 1) == tail,
        i + json_esc(t).len() + 1 <= s.len(),
{
    let e = json_esc(t);
    assert(e + (seq!['"'] + tail) =~= e + seq!['"'] + tail);
    lemma_str_parse_esc(s, i, t, tail);
    assert(s.skip(i).len() == s.len() - i);
    assert(e + (seq!['"'] + tail) =~= (e + seq!['"']) + tail);
    assert(((e + seq!['"']) + tail).skip(e.len() as int + 1) =~= tail);
    assert(s.skip(i).skip(e.len() as int + 1) == s.skip(i + e.len() + 1));
}

/// Parsing inverts serialization: the canonical document of any field
/// values parses back to exactly those field values.
#[verifier::spinoff_prover]
#[verifier::rlimit(60)]
pub proof fn lemma_meta_roundtrip(
    created_at: int,
    creator: Seq<char>,
    description: Seq<char>,
    tags: Seq<Seq<char>>,
)
    requires
        0 <= created_at <= i64::MAX,
    ensures
        meta_parse(meta_json(created_at, creator, description, tags)) == Some(
            MetaFields { created_at, creator, description, tags },
        ),
{
    let s = meta_json(created_at, creator, description, tags);
    let k1 = "{\"createdAt\":\""@;
    let k2 = "\",\"creatorEmail\":\""@;
    let k3 = ",\"description\":\""@;
    let k4 = ",\"tags\":["@;
    lemma_meta_shape(created_at, creator, description, tags);
    let h = hexn(created_at, 16);
    let ec = json_esc(creator);
    let ed = json_esc(description);
    let inner = tags_inner(tags);
    let r5 = inner + (seq![']'] + seq!['}']);
    let r4 = k4 + r5;
    let r3d = seq!['"'] + r4;
    let r3 = ed + r3d;
    let r2k = k3 + r3;
    let r2d = seq!['"'] + r2k;
    let r2 = ec + r2d;
    let r1 = k2 + r2;
    let r0 = h + r1;
    assert(s == k1 + r0);
    assert(s.skip(0) =~= s);
    lemma_peel_lit(s, 0, k1, r0);
    let p1 = k1.len() as int;
    lemma_hexn_shape(created_at, 16);
    lemma_peel_lit(s, p1, h, r1);
    assert(s.subrange(p1, p1 + 16) == h);
    assert(pow16(16) == 0x10000000000000000) by {
        reveal_with_fuel(pow16, 17);
    }
    lemma_hexn_value(created_at, 16);
    let p2 = p1 + 16;
    lemma_peel_lit(s, p2, k2, r2);
    let p3 = p2 + k2.len() as int;
    lemma_peel_string(s, p3, creator, r2k);
    let i3 = p3 + ec.len() as int + 1;
    lemma_peel_lit(s, i3, k3, r3);
    let p4 = i3 + k3.len() as int;
    lemma_peel_string(s, p4, description, r4);
    let i4 = p4 + ed.len() as int + 1;
    lemma_peel_lit(s, i4, k4, r5);
    let p5 = i4 + k4.len() as int;
    assert(r5 =~= inner + seq![']'] + seq!['}']);
    lemma_tags_parse_enc(s, p5, tags, seq!['}']);
    let i5 = p5 + inner.len() as int + 1;
    assert(tags_parse(s, p5) == Some((tags, i5)));
    assert(inner + seq![']'] + seq!['}'] =~= (inner + seq![']']) + seq!['}']);
    assert(((inner + seq![']']) + seq!['}']).skip(inner.len() as int + 1) =~= seq!['}']);
    assert(s.skip(p5).skip(inner.len() as int + 1) == s.skip(i5));
    assert(s.skip(i5) == seq!['}']);
    assert(s.skip(i5).len() == s.len() - i5);
    assert(i5 + 1 == s.len());
    assert(s.skip(i5)[0] == '}');
    assert(s[i5] == '}');
    assert(meta_parse(s) == Some(MetaFields { created_at, creator, description, tags }));
}



/// Applies a metadata update to a stored document: the document is
/// parsed, the update replaces tags and description while preserving
/// the original creator and creation instant, and the updated record is
/// serialized back. A document that does not parse yields nothing.
pub fn apply_update(current: &str, update: crate::asset::MetadataUpdateRequest) -> (r: Option<
    (Metadata, String),
>)
    ensures
        meta_parse(current@) is None ==> r is None,
        (match meta_parse(current@) {
            Some(f) => r matches Some(p) && p.0.wf() && p.0.created_at as int == f.created_at
                && p.0.creator_email@ == f.creator && p.0.description@ == update.description@
                && str_set(p.0.tags@) == crate::asset::tags_of(update.tags@) && p.1@
                == meta_json(
                f.created_at,
                f.creator,
                update.description@,
                p.0.tags.deep_view(),
            ),
            None => true,
        }),
{
    let current_meta = match meta_from_json(current) {
        None => {
            return None;
        },
        Some(m) => m,
    };
    proof {
        let f = meta_parse(current@).unwrap();
        let digits = current@.subrange(
            "{\"createdAt\":\""@.len() as int,
            "{\"createdAt\":\""@.len() as int + 16,
        );
        crate::hex::lemma_value_bound(digits);
    }
    let updated = update.update(current_meta);
    let body = meta_to_json(&updated);
    Some((updated, body))
}

} // verus!
