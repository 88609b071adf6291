//! A hexadecimal codec for session payloads: unbounded values as
//! fixed-width hex numbers, and strings as six hex digits per character
//! (every Unicode scalar fits in six digits). Hex text is safe wherever
//! a cookie value must travel, and decoding is proved to invert encoding.

use vstd::prelude::*;

use crate::text::push_char;

verus! {

/// The hex digit (lower case) for a value in `0..16`.
pub open spec fn hex_char_of(v: int) -> char {
    if v < 10 {
        (48 + v) as char
    } else {
        (87 + v) as char
    }
}

/// Whether `c` is a lower-case hex digit.
pub open spec fn is_hex_char(c: char) -> bool {
    ('0' <= c && c <= '9') || ('a' <= c && c <= 'f')
}

/// The value of a hex digit.
pub open spec fn hex_val_of(c: char) -> int {
    if '0' <= c && c <= '9' {
        c as int - 48
    } else {
        c as int - 87
    }
}

/// Hex digits are digits, and decode back to their value.
pub proof fn lemma_hex_char_inverts(v: int)
    requires
        0 <= v < 16,
    ensures
        is_hex_char(hex_char_of(v)),
        hex_val_of(hex_char_of(v)) == v,
        hex_char_of(v) != '-',
        hex_char_of(v) != '.',
        hex_char_of(v) != ';',
{
}

/// The `n`-digit hex rendering of `u`, most significant digit first.
pub open spec fn hexn(u: int, n: nat) -> Seq<char>
    decreases n,
{
    if n == 0 {
        Seq::empty()
    } else {
        hexn(u / 16, (n - 1) as nat) + seq![hex_char_of(u % 16)]
    }
}

/// Sixteen to the power `n`.
pub open spec fn pow16(n: nat) -> int
    decreases n,
{
    if n == 0 {
        1
    } else {
        16 * pow16((n - 1) as nat)
    }
}

/// Every character of `s` is a hex digit.
pub open spec fn all_hex(s: Seq<char>) -> bool {
    forall|k: int| 0 <= k < s.len() ==> is_hex_char(#[trigger] s[k])
}

/// The value of a string of hex digits, most significant first.
pub open spec fn value_of(s: Seq<char>) -> int
    decreases s.len(),
{
    if s.len() == 0 {
        0
    } else {
        value_of(s.drop_last()) * 16 + hex_val_of(s.last())
    }
}

/// A fixed-width hex rendering has that width and holds hex digits only.
pub proof fn lemma_hexn_shape(u: int, n: nat)
    requires
        0 <= u,
    ensures
        hexn(u, n).len() == n,
        all_hex(hexn(u, n)),
    decreases n,
{
    if n > 0 {
        lemma_hexn_shape(u / 16, (n - 1) as nat);
        lemma_hex_char_inverts(u % 16);
        let s = hexn(u, n);
        assert forall|k: int| 0 <= k < s.len() implies is_hex_char(#[trigger] s[k]) by {
            if k < n - 1 {
                assert(s[k] == hexn(u / 16, (n - 1) as nat)[k]);
            } else {
                assert(s[k] == hex_char_of(u % 16));
            }
        }
    }
}

/// Reading a fixed-width hex rendering back gives the value written.
pub proof fn lemma_hexn_value(u: int, n: nat)
    requires
        0 <= u < pow16(n),
    ensures
        value_of(hexn(u, n)) == u,
    decreases n,
{
    if n == 0 {
    } else {
        assert(u / 16 < pow16((n - 1) as nat)) by (nonlinear_arith)
            requires
                0 <= u < 16 * pow16((n - 1) as nat),
        ;
        lemma_hexn_value(u / 16, (n - 1) as nat);
        lemma_hexn_shape(u / 16, (n - 1) as nat);
        lemma_hex_char_inverts(u % 16);
        let s = hexn(u, n);
        assert(s.drop_last() =~= hexn(u / 16, (n - 1) as nat));
        assert(s.last() == hex_char_of(u % 16));
    }
}

/// The value of `n` hex digits is below sixteen to the `n`.
pub proof fn lemma_value_bound(s: Seq<char>)
    requires
        all_hex(s),
    ensures
        0 <= value_of(s) < pow16(s.len()),
    decreases s.len(),
{
    if s.len() > 0 {
        assert(forall|k: int|
            0 <= k < s.len() - 1 ==> s.drop_last()[k] == #[trigger] s[k]);
        lemma_value_bound(s.drop_last());
        let v = value_of(s.drop_last());
        assert(0 <= hex_val_of(s.last()) < 16);
        assert(v * 16 + 15 < pow16(s.len())) by (nonlinear_arith)
            requires
                0 <= v < pow16((s.len() - 1) as nat),
                pow16(s.len() as nat) == 16 * pow16((s.len() - 1) as nat),
        ;
    }
}

/// Appends the `n`-digit hex rendering of `u`.
pub fn append_hexn(out: &mut String, u: u64, n: usize)
    ensures
        final(out)@ == old(out)@ + hexn(u as int, n as nat),
    decreases n,
{
    if n == 0 {
        proof {
            assert(out@ =~= out@ + hexn(u as int, 0));
        }
        return;
    }
    append_hexn(out, u / 16, n - 1);
    let d: u8 = (u % 16) as u8;
    let c: u8 = if d < 10 {
        48 + d
    } else {
        87 + d
    };
    push_char(out, c as char);
    proof {
        assert(c as char == hex_char_of(u as int % 16));
        assert((u / 16) as int == u as int / 16);
        assert(old(out)@ + hexn(u as int / 16, (n - 1) as nat) + seq![
            hex_char_of(u as int % 16),
        ] =~= old(out)@ + hexn(u as int, n as nat));
    }
}

/// The hex rendering of a string: six digits per character, in order.
pub open spec fn hex6str(s: Seq<char>) -> Seq<char>
    decreases s.len(),
{
    if s.len() == 0 {
        Seq::empty()
    } else {
        hex6str(s.drop_last()) + hexn(s.last() as u32 as int, 6)
    }
}

/// A string's hex rendering has six digits per character, all hex.
pub proof fn lemma_hex6str_shape(s: Seq<char>)
    ensures
        hex6str(s).len() == 6 * s.len(),
        all_hex(hex6str(s)),
    decreases s.len(),
{
    if s.len() > 0 {
        lemma_hex6str_shape(s.drop_last());
        vstd::utf8::char_is_scalar(s.last());
        lemma_hexn_shape(s.last() as u32 as int, 6);
        let h = hex6str(s);
        let hd = hex6str(s.drop_last());
        assert forall|k: int| 0 <= k < h.len() implies is_hex_char(#[trigger] h[k]) by {
            if k < hd.len() {
                assert(h[k] == hd[k]);
            } else {
                assert(h[k] == hexn(s.last() as u32 as int, 6)[k - hd.len()]);
            }
        }
    }
}

/// A Unicode scalar value: what a `char` may hold.
pub open spec fn valid_scalar(v: int) -> bool {
    (0 <= v < 0xD800) || (0xE000 <= v <= 0x10FFFF)
}

/// Decodes a hex rendering of a string: six digits per character, each
/// group a valid Unicode scalar. Anything else is refused.
pub open spec fn hex6_parse(s: Seq<char>) -> Option<Seq<char>>
    decreases s.len(),
{
    if s.len() == 0 {
        Some(Seq::empty())
    } else if s.len() < 6 {
        None
    } else {
        let head = s.take(s.len() - 6);
        let grp = s.skip(s.len() - 6);
        if !all_hex(grp) {
            None
        } else if !valid_scalar(value_of(grp)) {
            None
        } else {
            match hex6_parse(head) {
                None => None,
                Some(cs) => Some(cs.push(value_of(grp) as char)),
            }
        }
    }
}

/// Decoding inverts encoding: the hex rendering of a string parses back
/// to exactly that string.
pub proof fn lemma_hex6_roundtrip(s: Seq<char>)
    ensures
        hex6_parse(hex6str(s)) == Some(s),
    decreases s.len(),
{
    if s.len() == 0 {
        assert(hex6_parse(hex6str(s)) == Some(Seq::<char>::empty()));
        assert(Seq::<char>::empty() =~= s);
    } else {
        lemma_hex6_roundtrip(s.drop_last());
        lemma_hex6str_shape(s.drop_last());
        lemma_hex6str_shape(s);
        let c = s.last();
        vstd::utf8::char_is_scalar(c);
        vstd::utf8::char_u32_cast(c, c as u32);
        let v = c as u32 as int;
        let h = hex6str(s);
        lemma_hexn_shape(v, 6);
        assert(h.len() == 6 * s.len());
        assert(h.take(h.len() - 6) =~= hex6str(s.drop_last()));
        assert(h.skip(h.len() - 6) =~= hexn(v, 6));
        assert(0 <= v <= 0x10FFFF);
        assert(pow16(6) == 0x1000000) by {
            reveal_with_fuel(pow16, 7);
        }
        lemma_hexn_value(v, 6);
        assert(valid_scalar(value_of(hexn(v, 6))));
        assert((value_of(hexn(v, 6))) as char == c) by {
            assert(v as u32 == c as u32);
            assert((v as u32) as char == c);
        }
        assert(hex6_parse(h) == Some(s.drop_last().push(c)));
        assert(s.drop_last().push(c) =~= s);
    }
}

/// Appends the hex rendering of `s`.
pub fn hex6_append(out: &mut String, s: &str)
    ensures
        final(out)@ == old(out)@ + hex6str(s@),
{
    let len = s.unicode_len();
    let mut i: usize = 0;
    proof {
        assert(s@.take(0) =~= Seq::<char>::empty());
        assert(out@ =~= out@ + hex6str(s@.take(0)));
    }
    while i < len
        invariant
            0 <= i <= len,
            len == s@.len(),
            out@ == old(out)@ + hex6str(s@.take(i as int)),
        decreases len - i,
    {
        let c = s.get_char(i);
        let u: u32 = c as u32;
        append_hexn(out, u as u64, 6);
        proof {
            vstd::utf8::char_is_scalar(c);
            assert(u as u64 as int == c as u32 as int);
            assert(s@.take(i + 1).drop_last() =~= s@.take(i as int));
            assert(s@.take(i + 1).last() == s@[i as int]);
            assert(old(out)@ + hex6str(s@.take(i as int)) + hexn(c as u32 as int, 6)
                =~= old(out)@ + hex6str(s@.take(i + 1)));
        }
        i = i + 1;
    }
    proof {
        assert(s@.take(len as int) =~= s@);
    }
}

/// The value of a hex digit, decided.
pub fn hex_val(c: char) -> (r: Option<u8>)
    ensures
        match r {
            Some(v) => is_hex_char(c) && v == hex_val_of(c) && v < 16,
            None => !is_hex_char(c),
        },
{
    if c >= '0' && c <= '9' {
        Some(((c as u32) - 48) as u8)
    } else if c >= 'a' && c <= 'f' {
        Some(((c as u32) - 87) as u8)
    } else {
        None
    }
}

/// When the length of `s` is not a multiple of six, decoding refuses it.
proof fn lemma_hex6_parse_len(s: Seq<char>)
    requires
        s.len() % 6 != 0,
    ensures
        hex6_parse(s) is None,
    decreases s.len(),
{
    if s.len() >= 6 {
        assert(s.take(s.len() - 6).len() % 6 != 0);
        lemma_hex6_parse_len(s.take(s.len() - 6));
    }
}

/// Once a prefix of whole groups refuses to decode, the whole string
/// refuses.
proof fn lemma_hex6_parse_prefix_none(s: Seq<char>, i: int)
    requires
        0 <= i <= s.len(),
        i % 6 == 0,
        s.len() % 6 == 0,
        hex6_parse(s.take(i)) is None,
    ensures
        hex6_parse(s) is None,
    decreases s.len() - i,
{
    if i < s.len() {
        assert(s.take(s.len() - 6).take(i) =~= s.take(i));
        lemma_hex6_parse_prefix_none(s.take(s.len() - 6), i);
    } else {
        assert(s.take(i) =~= s);
    }
}

/// Decodes a string of six-digit hex groups, refusing anything that is
/// not the hex rendering of some string.
pub fn hex6_decode(s: &str) -> (r: Option<String>)
    ensures
        r.deep_view() == hex6_parse(s@),
{
    let len = s.unicode_len();
    if len % 6 != 0 {
        proof {
            lemma_hex6_parse_len(s@);
        }
        return None;
    }
    let mut out = String::new();
    let mut i: usize = 0;
    proof {
        assert(s@.take(0) =~= Seq::<char>::empty());
    }
    while i < len
        invariant
            0 <= i <= len,
            i % 6 == 0,
            len % 6 == 0,
            len == s@.len(),
            hex6_parse(s@.take(i as int)) == Some(out@),
        decreases len - i,
    {
        let ghost pre = out@;
        let mut acc: u32 = 0;
        let mut j: usize = 0;
        while j < 6
            invariant
                0 <= j <= 6,
                i + 6 <= len,
                i % 6 == 0,
                len % 6 == 0,
                len == s@.len(),
                all_hex(s@.subrange(i as int, i + j)),
                acc == value_of(s@.subrange(i as int, i + j)),
                acc < 0x1000000,
            decreases 6 - j,
        {
            let c = s.get_char(i + j);
            match hex_val(c) {
                Some(v) => {
                    proof {
                        let seg = s@.subrange(i as int, i + j + 1);
                        assert(seg.drop_last() =~= s@.subrange(i as int, i + j));
                        assert(seg.last() == c);
                        lemma_value_bound(s@.subrange(i as int, i + j));
                        assert(pow16(5) == 0x100000) by {
                            reveal_with_fuel(pow16, 6);
                        }
                        assert(value_of(s@.subrange(i as int, i + j)) < pow16(j as nat))
                            by {
                            lemma_value_bound(s@.subrange(i as int, i + j));
                        }
                        assert(pow16(j as nat) <= pow16(5)) by {
                            lemma_pow16_mono(j as nat, 5);
                        }
                    }
                    acc = acc * 16 + (v as u32);
                },
                None => {
                    proof {
                        let grp = s@.subrange(i as int, i + 6);
                        assert(!is_hex_char(grp[j as int]));
                        assert(!all_hex(grp));
                        assert(s@.take(i + 6).skip(i as int) =~= grp);
                        assert(s@.take(i + 6).take(i as int) =~= s@.take(i as int));
                        assert(hex6_parse(s@.take(i + 6)) is None);
                        assert((i + 6) % 6 == 0);
                        lemma_hex6_parse_prefix_none(s@, i + 6);
                    }
                    return None;
                },
            }
            j = j + 1;
        }
        let ghost grp = s@.subrange(i as int, i + 6);
        proof {
            assert(s@.take(i + 6).skip(i as int) =~= grp);
            assert(s@.take(i + 6).take(i as int) =~= s@.take(i as int));
        }
        match char_from_u32(acc) {
            Some(c) => {
                push_char(&mut out, c);
                proof {
                    assert(valid_scalar(acc as int));
                    assert(hex6_parse(s@.take(i + 6)) == Some(pre.push(c)));
                }
            },
            None => {
                proof {
                    assert(!valid_scalar(acc as int));
                    assert(hex6_parse(s@.take(i + 6)) is None);
                    assert((i + 6) % 6 == 0);
                    lemma_hex6_parse_prefix_none(s@, i + 6);
                }
                return None;
            },
        }
        i = i + 6;
    }
    proof {
        assert(s@.take(len as int) =~= s@);
    }
    Some(out)
}

/// Powers of sixteen grow with the exponent.
pub proof fn lemma_pow16_mono(a: nat, b: nat)
    requires
        a <= b,
    ensures
        pow16(a) <= pow16(b),
    decreases b,
{
    if a < b {
        lemma_pow16_mono(a, (b - 1) as nat);
        lemma_pow16_pos((b - 1) as nat);
        assert(pow16((b - 1) as nat) <= 16 * pow16((b - 1) as nat));
    }
}

/// Powers of sixteen are positive.
pub proof fn lemma_pow16_pos(n: nat)
    ensures
        pow16(n) >= 1,
    decreases n,
{
    if n > 0 {
        lemma_pow16_pos((n - 1) as nat);
    }
}

/// Relies on char::from_u32: returns the character with the given code
/// point exactly when the value is a Unicode scalar (not a surrogate,
/// at most 0x10FFFF), and None otherwise.
#[verifier::external_body]
fn char_from_u32(v: u32) -> (r: Option<char>)
    ensures
        valid_scalar(v as int) ==> r == Some(v as char),
        !valid_scalar(v as int) ==> r is None,
{
    char::from_u32(v)
}

} // verus!
