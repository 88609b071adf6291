//! The stateless session gate: minting and verifying the signed,
//! self-contained credential that every catalog operation requires.
//!
//! A credential is `payload.tag`: the payload encodes the claim —
//! expiry, primary email, and the provider-verified emails — as
//! hex text (so it travels safely in a cookie), and the tag is an
//! HMAC-SHA256 over the payload under the configured secret. Nothing is
//! stored server-side: a credential is dead the moment its tag fails to
//! verify or its expiry has passed, and there is no revocation before
//! expiry.

use vstd::prelude::*;

use crate::error::Error;
use crate::hex::{
    all_hex, hex6_decode, hex6_parse, hex6str, hex6_append, hexn, is_hex_char, append_hexn,
    lemma_hex6_roundtrip, lemma_hex6str_shape, lemma_hexn_shape, lemma_hexn_value, pow16,
    value_of, hex_val,
};
use crate::text::{push_char, run_len, scan_until, str_eq, trim_segment, trim_spec};

verus! {

/// The identity claim a credential carries: the best-effort primary
/// email, every provider-verified email, and the expiry instant.
#[verifier::ext_equal]
pub ghost struct UserView {
    pub primary_email: Seq<char>,
    pub emails: Seq<Seq<char>>,
    pub exp: int,
}

/// A valid claim: at least one verified email, and a representable,
/// non-negative expiry.
pub open spec fn wf_claims(u: UserView) -> bool {
    u.emails.len() >= 1 && 0 <= u.exp <= i64::MAX
}

/// The authenticated identity attached to a request.
pub struct User {
    pub primary_email: String,
    pub emails: Vec<String>,
    pub exp: i64,
}

impl View for User {
    type V = UserView;

    open spec fn view(&self) -> UserView {
        UserView {
            primary_email: self.primary_email@,
            emails: self.emails.deep_view(),
            exp: self.exp as int,
        }
    }
}

impl DeepView for User {
    type V = UserView;

    open spec fn deep_view(&self) -> UserView {
        self.view()
    }
}

/// The HMAC-SHA256 tag of a message under a secret, as the base64 text
/// the signing routine emits. Named only: the tag is a function of the
/// secret and the message, and nothing else is assumed of it.
pub uninterp spec fn hmac_tag(secret: Seq<u8>, message: Seq<char>) -> Seq<char>;

/// Relies on jsonwebtoken::crypto::sign with Algorithm::HS256: the
/// returned tag depends on the secret and message alone. HMAC signing
/// accepts any key and message, so the error branch never runs.
#[verifier::external_body]
fn hs256_sign(secret: &[u8], message: &str) -> (r: String)
    ensures
        r@ == hmac_tag(secret@, message@),
{
    let key = jsonwebtoken::EncodingKey::from_secret(secret);
    match jsonwebtoken::crypto::sign(message.as_bytes(), &key, jsonwebtoken::Algorithm::HS256) {
        Ok(tag) => tag,
        Err(_) => String::new(),
    }
}

/// Relies on jsonwebtoken::crypto::verify with Algorithm::HS256: it
/// re-signs the message under the secret and reports whether the given
/// signature text equals the recomputed tag.
#[verifier::external_body]
fn hs256_verify(secret: &[u8], message: &str, signature: &str) -> (r: bool)
    ensures
        r == (signature@ == hmac_tag(secret@, message@)),
{
    let key = jsonwebtoken::DecodingKey::from_secret(secret);
    jsonwebtoken::crypto::verify(
        signature,
        message.as_bytes(),
        &key,
        jsonwebtoken::Algorithm::HS256,
    ).unwrap_or(false)
}

/// The payload text of a list of segments: each one hex-rendered and
/// preceded by a dash.
pub open spec fn segs_enc(ss: Seq<Seq<char>>) -> Seq<char>
    decreases ss.len(),
{
    if ss.len() == 0 {
        Seq::empty()
    } else {
        segs_enc(ss.drop_last()) + seq!['-'] + hex6str(ss.last())
    }
}

/// The payload of a claim: sixteen hex digits of the expiry, then the
/// primary email and every verified email as dash-led hex segments.
pub open spec fn payload_chars(u: UserView) -> Seq<char> {
    hexn(u.exp, 16) + segs_enc(seq![u.primary_email] + u.emails)
}

/// The complete credential: the payload, a dot, and the payload's tag.
pub open spec fn token_chars(u: UserView, secret: Seq<u8>) -> Seq<char> {
    payload_chars(u) + seq!['.'] + hmac_tag(secret, payload_chars(u))
}

/// Every character of an encoded segment list is a hex digit or a dash.
proof fn lemma_segs_enc_shape(ss: Seq<Seq<char>>)
    ensures
        forall|k: int|
            0 <= k < segs_enc(ss).len() ==> is_hex_char(#[trigger] segs_enc(ss)[k])
                || segs_enc(ss)[k] == '-',
    decreases ss.len(),
{
    if ss.len() > 0 {
        lemma_segs_enc_shape(ss.drop_last());
        lemma_hex6str_shape(ss.last());
        let s = segs_enc(ss);
        let head = segs_enc(ss.drop_last());
        assert forall|k: int|
            0 <= k < s.len() implies is_hex_char(#[trigger] s[k]) || s[k] == '-' by {
            if k < head.len() {
                assert(s[k] == head[k]);
            } else if k == head.len() {
                assert(s[k] == '-');
            } else {
                assert(s[k] == hex6str(ss.last())[k - head.len() - 1]);
            }
        }
    }
}

/// A non-empty segment list's text starts with its first segment.
proof fn lemma_segs_enc_first(ss: Seq<Seq<char>>)
    requires
        ss.len() >= 1,
    ensures
        segs_enc(ss) == seq!['-'] + hex6str(ss[0]) + segs_enc(ss.drop_first()),
    decreases ss.len(),
{
    if ss.len() == 1 {
        assert(ss.drop_last() =~= Seq::<Seq<char>>::empty());
        assert(ss.drop_first() =~= Seq::<Seq<char>>::empty());
        assert(segs_enc(ss) =~= seq!['-'] + hex6str(ss[0]) + segs_enc(ss.drop_first()));
    } else {
        lemma_segs_enc_first(ss.drop_last());
        assert(ss.drop_last()[0] == ss[0]);
        assert(ss.drop_last().drop_first() =~= ss.drop_first().drop_last());
        assert(ss.drop_first().last() == ss.last());
        assert(segs_enc(ss) == segs_enc(ss.drop_last()) + seq!['-'] + hex6str(ss.last()));
        assert(seq!['-'] + hex6str(ss[0]) + segs_enc(ss.drop_first().drop_last()) + seq![
            '-',
        ] + hex6str(ss.drop_first().last()) =~= seq!['-'] + hex6str(ss[0]) + (segs_enc(
            ss.drop_first().drop_last(),
        ) + seq!['-'] + hex6str(ss.drop_first().last())));
    }
}

/// Mints a credential for the given identity: the claim expires a fixed
/// day after `now`, and the token is the encoded payload joined to its
/// tag under `secret`.
pub fn mint_session(primary_email: &str, emails: &Vec<String>, now: i64, secret: &[u8]) -> (r:
    String)
    requires
        emails@.len() >= 1,
        0 <= now <= i64::MAX - 86400,
    ensures
        r@ == token_chars(
            UserView {
                primary_email: primary_email@,
                emails: emails.deep_view(),
                exp: now + 86400,
            },
            secret@,
        ),
{
    let exp: i64 = now + 86400;
    let ghost uv = UserView {
        primary_email: primary_email@,
        emails: emails.deep_view(),
        exp: exp as int,
    };
    let mut payload = String::new();
    append_hexn(&mut payload, exp as u64, 16);
    proof {
        assert(exp as u64 as int == exp as int);
        assert(payload@ =~= hexn(uv.exp, 16));
    }
    push_char(&mut payload, '-');
    hex6_append(&mut payload, primary_email);
    proof {
        let ss0 = seq![uv.primary_email] + uv.emails.take(0);
        assert(ss0.len() == 1);
        assert(ss0.drop_last() =~= Seq::<Seq<char>>::empty());
        assert(segs_enc(ss0.drop_last()) == Seq::<char>::empty());
        assert(ss0.last() == uv.primary_email);
        assert(segs_enc(ss0) == segs_enc(ss0.drop_last()) + seq!['-'] + hex6str(ss0.last()));
        assert(payload@ =~= hexn(uv.exp, 16) + segs_enc(ss0));
    }
    let mut i: usize = 0;
    while i < emails.len()
        invariant
            0 <= i <= emails@.len(),
            payload@ == hexn(uv.exp, 16) + segs_enc(
                seq![uv.primary_email] + uv.emails.take(i as int),
            ),
            uv.emails == emails.deep_view(),
            uv.primary_email == primary_email@,
        decreases emails@.len() - i,
    {
        push_char(&mut payload, '-');
        hex6_append(&mut payload, emails[i].as_str());
        proof {
            let prev = seq![uv.primary_email] + uv.emails.take(i as int);
            let cur = seq![uv.primary_email] + uv.emails.take(i + 1);
            assert(cur.drop_last() =~= prev);
            assert(cur.last() == uv.emails[i as int]);
            assert(emails[i as int]@ == uv.emails[i as int]);
            assert(payload@ =~= hexn(uv.exp, 16) + segs_enc(cur));
        }
        i = i + 1;
    }
    proof {
        assert(uv.emails.take(uv.emails.len() as int) =~= uv.emails);
    }
    let tag = hs256_sign(secret, payload.as_str());
    let mut token = payload;
    let ghost payload_view = token@;
    push_char(&mut token, '.');
    token.append(tag.as_str());
    proof {
        assert(token@ =~= token_chars(uv, secret@));
    }
    token
}

/// Parses dash-led hex segments from position `i` to the end of `s`.
/// Anything that is not a well-formed segment list is refused.
pub open spec fn segs_parse_at(s: Seq<char>, i: int) -> Option<Seq<Seq<char>>>
    decreases s.len() - i,
{
    if i < 0 || i >= s.len() {
        if i == s.len() {
            Some(Seq::empty())
        } else {
            None
        }
    } else if s[i] != '-' {
        None
    } else {
        let j = i + 1 + run_len(s, i + 1, '-');
        if j > s.len() {
            None
        } else {
            match hex6_parse(s.subrange(i + 1, j)) {
                None => None,
                Some(cs) => match segs_parse_at(s, j) {
                    None => None,
                    Some(rest) => Some(seq![cs] + rest),
                },
            }
        }
    }
}

/// Parses a credential payload: sixteen hex digits of expiry, then at
/// least two segments (the primary email, then the verified emails).
pub open spec fn payload_parse(s: Seq<char>) -> Option<UserView> {
    if s.len() < 17 {
        None
    } else if !all_hex(s.take(16)) {
        None
    } else if value_of(s.take(16)) > i64::MAX {
        None
    } else {
        match segs_parse_at(s, 16) {
            None => None,
            Some(segs) => if segs.len() < 2 {
                None
            } else {
                Some(
                    UserView {
                        primary_email: segs[0],
                        emails: segs.drop_first(),
                        exp: value_of(s.take(16)),
                    },
                )
            },
        }
    }
}

/// Parses and verifies a credential: the text before the first dot is
/// the payload, the rest must equal the payload's tag under `secret`,
/// and the payload must parse.
pub open spec fn token_parse(t: Seq<char>, secret: Seq<u8>) -> Option<UserView> {
    let d = run_len(t, 0, '.') as int;
    if d >= t.len() {
        None
    } else if t.skip(d + 1) != hmac_tag(secret, t.take(d)) {
        None
    } else {
        payload_parse(t.take(d))
    }
}

/// Whether some claimed email is allow-listed.
pub open spec fn emails_intersect(emails: Seq<Seq<char>>, allowed: Seq<Seq<char>>) -> bool {
    exists|i: int, j: int|
        0 <= i < emails.len() && 0 <= j < allowed.len() && emails[i] == allowed[j]
}

/// What authentication decides for a credential: an invalid or
/// expired credential is `UserNotAuthorized`; a valid one whose emails
/// miss the allow-list entirely is `UserNotAllowed`; otherwise the
/// decoded claim becomes the request's identity.
pub open spec fn gate_spec(
    token: Seq<char>,
    secret: Seq<u8>,
    allowed: Seq<Seq<char>>,
    now: int,
) -> Result<UserView, Error> {
    match token_parse(token, secret) {
        None => Err(Error::UserNotAuthorized),
        Some(u) => if u.exp <= now {
            Err(Error::UserNotAuthorized)
        } else if emails_intersect(u.emails, allowed) {
            Ok(u)
        } else {
            Err(Error::UserNotAllowed)
        },
    }
}

/// Looks a cookie up in a `Cookie` header: pairs are separated by
/// semicolons and trimmed, a pair's name is what stands before its first
/// equals sign, and the first pair with the wanted name wins.
pub open spec fn cookie_lookup_at(h: Seq<char>, i: int, name: Seq<char>) -> Option<Seq<char>>
    decreases h.len() - i,
{
    if i < 0 || i >= h.len() {
        None
    } else {
        let j = i + run_len(h, i, ';');
        if j > h.len() {
            None
        } else {
            let seg = trim_spec(h.subrange(i, j));
            let e = run_len(seg, 0, '=') as int;
            if e < seg.len() && seg.take(e) == name {
                Some(seg.skip(e + 1))
            } else if j < h.len() {
                cookie_lookup_at(h, j + 1, name)
            } else {
                None
            }
        }
    }
}

/// The whole per-request decision, from the raw `Cookie` header on: no
/// header or no session cookie means `UserNotAuthorized`; otherwise the
/// gate judges the cookie's value.
pub open spec fn auth_spec(
    header: Option<Seq<char>>,
    secret: Seq<u8>,
    allowed: Seq<Seq<char>>,
    now: int,
) -> Result<UserView, Error> {
    match header {
        None => Err(Error::UserNotAuthorized),
        Some(h) => match cookie_lookup_at(h, 0, "SESSION"@) {
            None => Err(Error::UserNotAuthorized),
            Some(tok) => gate_spec(tok, secret, allowed, now),
        },
    }
}

/// Parses a payload string, refusing anything `payload_parse` refuses.
fn parse_payload(s: &str) -> (r: Option<User>)
    ensures
        r.deep_view() == payload_parse(s@),
{
    let len = s.unicode_len();
    if len < 17 {
        return None;
    }
    let mut acc: u64 = 0;
    let mut j: usize = 0;
    proof {
        assert(s@.take(16).take(0) =~= Seq::<char>::empty());
        assert(pow16(16) == 0x10000000000000000) by {
            reveal_with_fuel(pow16, 17);
        }
    }
    while j < 16
        invariant
            0 <= j <= 16,
            16 < len == s@.len(),
            all_hex(s@.take(16).take(j as int)),
            acc == value_of(s@.take(16).take(j as int)),
            acc < pow16(j as nat),
            pow16(16) == 0x10000000000000000,
        decreases 16 - j,
    {
        let c = s.get_char(j);
        proof {
            assert(s@.take(16)[j as int] == c);
        }
        match hex_val(c) {
            Some(v) => {
                proof {
                    let pre = s@.take(16).take(j as int);
                    let cur = s@.take(16).take(j + 1);
                    assert(cur.drop_last() =~= pre);
                    assert(cur.last() == c);
                    crate::hex::lemma_pow16_mono(j as nat, 15);
                    assert(pow16(15) == 0x1000000000000000) by {
                        reveal_with_fuel(pow16, 16);
                    }
                    assert(acc * 16 + 15 < pow16((j + 1) as nat)) by (nonlinear_arith)
                        requires
                            acc < pow16(j as nat),
                            pow16((j + 1) as nat) == 16 * pow16(j as nat),
                    ;
                }
                acc = acc * 16 + (v as u64);
            },
            None => {
                proof {
                    assert(!is_hex_char(s@.take(16)[j as int]));
                    assert(!all_hex(s@.take(16)));
                }
                return None;
            },
        }
        j = j + 1;
    }
    proof {
        assert(s@.take(16).take(16) =~= s@.take(16));
    }
    if acc > 0x7fffffffffffffff {
        return None;
    }
    let exp: i64 = acc as i64;
    let mut segs: Vec<String> = Vec::new();
    let mut i: usize = 16;
    proof {
        assert(segs.deep_view() =~= Seq::<Seq<char>>::empty());
    }
    loop
        invariant
            16 <= i <= len,
            len == s@.len(),
            forall|rest: Seq<Seq<char>>|
                segs_parse_at(s@, i as int) == Some::<Seq<Seq<char>>>(rest)
                    ==> segs_parse_at(s@, 16) == Some(segs.deep_view() + rest),
            segs_parse_at(s@, i as int) is None ==> segs_parse_at(s@, 16) is None,
        ensures
            i == len,
            forall|rest: Seq<Seq<char>>|
                segs_parse_at(s@, i as int) == Some::<Seq<Seq<char>>>(rest)
                    ==> segs_parse_at(s@, 16) == Some(segs.deep_view() + rest),
        decreases len - i,
    {
        if i == len {
            break;
        }
        if s.get_char(i) != '-' {
            proof {
                assert(segs_parse_at(s@, i as int) is None);
            }
            return None;
        }
        let j2 = scan_until(s, i + 1, '-');
        let grp = s.substring_char(i + 1, j2);
        proof {
            assert(grp@ =~= s@.subrange(i + 1, j2 as int));
        }
        match hex6_decode(grp) {
            None => {
                proof {
                    assert(segs_parse_at(s@, i as int) is None);
                }
                return None;
            },
            Some(decoded) => {
                let ghost pre = segs.deep_view();
                segs.push(decoded);
                proof {
                    assert(segs.deep_view() =~= pre.push(
                        hex6_parse(s@.subrange(i + 1, j2 as int)).unwrap(),
                    ));
                    let cs = hex6_parse(s@.subrange(i + 1, j2 as int)).unwrap();
                    assert forall|rest: Seq<Seq<char>>|
                        segs_parse_at(s@, j2 as int) == Some::<Seq<Seq<char>>>(rest)
                            implies segs_parse_at(s@, 16) == Some(
                        segs.deep_view() + rest,
                    ) by {
                        assert(segs_parse_at(s@, i as int) == Some(seq![cs] + rest));
                        assert(pre + (seq![cs] + rest) =~= pre.push(cs) + rest);
                    }
                    assert(segs_parse_at(s@, j2 as int) is None ==> segs_parse_at(
                        s@,
                        i as int,
                    ) is None);
                }
                i = j2;
            },
        }
    }
    proof {
        assert(segs_parse_at(s@, len as int) == Some(Seq::<Seq<char>>::empty()));
        assert(segs.deep_view() + Seq::<Seq<char>>::empty() =~= segs.deep_view());
        assert(segs_parse_at(s@, 16) == Some(segs.deep_view()));
    }
    if segs.len() < 2 {
        return None;
    }
    let ghost parsed = segs.deep_view();
    let primary_email = segs.remove(0);
    proof {
        assert(segs.deep_view() =~= parsed.drop_first());
    }
    let u = User { primary_email, emails: segs, exp };
    proof {
        assert(u@ =~= UserView {
            primary_email: parsed[0],
            emails: parsed.drop_first(),
            exp: acc as int,
        });
        assert(payload_parse(s@) == Some(u@));
    }
    Some(u)
}

/// Finds the named cookie in a `Cookie` header, by the same rules as
/// `cookie_lookup_at`.
fn cookie_find(h: &str, name: &str) -> (r: Option<String>)
    ensures
        r.deep_view() == cookie_lookup_at(h@, 0, name@),
{
    let len = h.unicode_len();
    let mut i: usize = 0;
    if len == 0 {
        return None;
    }
    loop
        invariant
            0 <= i < len,
            len == h@.len(),
            cookie_lookup_at(h@, 0, name@) == cookie_lookup_at(h@, i as int, name@),
        decreases len - i,
    {
        let j = scan_until(h, i, ';');
        let seg = trim_segment(h, i, j);
        let seg_len = seg.as_str().unicode_len();
        let e = scan_until(seg.as_str(), 0, '=');
        if e < seg_len && str_eq(seg.as_str().substring_char(0, e), name) {
            let value = seg.as_str().substring_char(e + 1, seg_len).to_owned();
            proof {
                assert(seg@.take(e as int) =~= seg@.subrange(0, e as int));
                assert(seg@.skip(e + 1) =~= seg@.subrange(e + 1, seg@.len() as int));
                assert(cookie_lookup_at(h@, i as int, name@) == Some(value@));
            }
            return Some(value);
        }
        proof {
            assert(seg@.take(e as int) =~= seg@.subrange(0, e as int));
        }
        if j >= len {
            proof {
                assert(cookie_lookup_at(h@, i as int, name@) is None);
            }
            return None;
        }
        i = j + 1;
        if i >= len {
            proof {
                assert(cookie_lookup_at(h@, i as int, name@) is None);
            }
            return None;
        }
    }
}

/// Whether any claimed email stands in the allow-list.
fn any_allowed(emails: &Vec<String>, allowed: &Vec<String>) -> (r: bool)
    ensures
        r == emails_intersect(emails.deep_view(), allowed.deep_view()),
{
    let mut i: usize = 0;
    while i < emails.len()
        invariant
            0 <= i <= emails@.len(),
            forall|p: int, q: int|
                0 <= p < i && 0 <= q < allowed@.len() ==> emails.deep_view()[p]
                    != allowed.deep_view()[q],
        decreases emails@.len() - i,
    {
        let mut j: usize = 0;
        while j < allowed.len()
            invariant
                0 <= i < emails@.len(),
                0 <= j <= allowed@.len(),
                forall|q: int|
                    0 <= q < j ==> emails.deep_view()[i as int] != allowed.deep_view()[q],
            decreases allowed@.len() - j,
        {
            if str_eq(emails[i].as_str(), allowed[j].as_str()) {
                proof {
                    assert(emails.deep_view()[i as int] == allowed.deep_view()[j as int]);
                }
                return true;
            }
            j = j + 1;
        }
        i = i + 1;
    }
    false
}

/// Judges the session credential itself: signature, expiry, allow-list.
pub fn gate(token: &str, secret: &[u8], allowed: &Vec<String>, now: i64) -> (r: Result<
    User,
    Error,
>)
    ensures
        (r matches Ok(u) ==> gate_spec(token@, secret@, allowed.deep_view(), now as int)
            == Ok::<UserView, Error>(u@)),
        (r matches Err(e) ==> gate_spec(token@, secret@, allowed.deep_view(), now as int)
            == Err::<UserView, Error>(e)),
{
    let len = token.unicode_len();
    let d = scan_until(token, 0, '.');
    if d == len {
        return Err(Error::UserNotAuthorized);
    }
    let payload = token.substring_char(0, d);
    let sig = token.substring_char(d + 1, len);
    proof {
        assert(payload@ =~= token@.take(d as int));
        assert(sig@ =~= token@.skip(d + 1));
    }
    if !hs256_verify(secret, payload, sig) {
        return Err(Error::UserNotAuthorized);
    }
    match parse_payload(payload) {
        None => Err(Error::UserNotAuthorized),
        Some(u) => {
            if u.exp <= now {
                return Err(Error::UserNotAuthorized);
            }
            if any_allowed(&u.emails, allowed) {
                Ok(u)
            } else {
                Err(Error::UserNotAllowed)
            }
        },
    }
}

/// The per-request identity decision, from the raw `Cookie` header (or
/// its absence) to an authenticated identity or a gate error.
pub fn authenticate(
    cookie_header: Option<&str>,
    secret: &[u8],
    allowed: &Vec<String>,
    now: i64,
) -> (r: Result<User, Error>)
    ensures
        (r matches Ok(u) ==> auth_spec(
            cookie_header.deep_view(),
            secret@,
            allowed.deep_view(),
            now as int,
        ) == Ok::<UserView, Error>(u@)),
        (r matches Err(e) ==> auth_spec(
            cookie_header.deep_view(),
            secret@,
            allowed.deep_view(),
            now as int,
        ) == Err::<UserView, Error>(e)),
{
    match cookie_header {
        None => Err(Error::UserNotAuthorized),
        Some(h) => match cookie_find(h, "SESSION") {
            None => Err(Error::UserNotAuthorized),
            Some(token) => gate(token.as_str(), secret, allowed, now),
        },
    }
}

/// The `Set-Cookie` value that hands a freshly minted credential to the
/// client.
pub fn session_cookie_value(token: &str) -> (r: String)
    ensures
        r@ == "SESSION="@ + token@ + "; SameSite=Lax; Path=/"@,
{
    let mut r = String::new();
    r.append("SESSION=");
    r.append(token);
    r.append("; SameSite=Lax; Path=/");
    r
}

/// A run of characters free of `stop` followed by `stop` (or the end)
/// pins the run length.
proof fn lemma_run_len_at(s: Seq<char>, i: int, l: int, stop: char)
    requires
        0 <= i,
        0 <= l,
        i + l <= s.len(),
        forall|k: int| i <= k < i + l ==> s[k] != stop,
        i + l == s.len() || s[i + l] == stop,
    ensures
        run_len(s, i, stop) == l,
    decreases l,
{
    if l > 0 {
        lemma_run_len_at(s, i + 1, l - 1, stop);
    }
}

/// Encoded segment lists take at least one character per segment.
proof fn lemma_segs_enc_len(ss: Seq<Seq<char>>)
    ensures
        segs_enc(ss).len() >= ss.len(),
    decreases ss.len(),
{
    if ss.len() > 0 {
        lemma_segs_enc_len(ss.drop_last());
    }
}

/// Parsing inverts encoding for segment lists, wherever the encoding
/// stands at the tail of a larger text.
proof fn lemma_segs_parse_enc(s: Seq<char>, i: int, ss: Seq<Seq<char>>)
    requires
        0 <= i <= s.len(),
        s.skip(i) == segs_enc(ss),
    ensures
        segs_parse_at(s, i) == Some(ss),
    decreases ss.len(),
{
    if ss.len() == 0 {
        assert(segs_enc(ss).len() == 0);
        assert(i == s.len());
        assert(ss =~= Seq::<Seq<char>>::empty());
    } else {
        lemma_segs_enc_first(ss);
        lemma_hex6str_shape(ss[0]);
        let h = hex6str(ss[0]);
        let hl = h.len() as int;
        let rest_enc = segs_enc(ss.drop_first());
        assert(s.skip(i).len() == 1 + hl + rest_enc.len());
        assert(s[i] == '-') by {
            assert(s.skip(i)[0] == s[i]);
            assert((seq!['-'] + hex6str(ss[0]) + segs_enc(ss.drop_first()))[0] == '-');
        }
        assert forall|k: int| i + 1 <= k < i + 1 + hl implies s[k] != '-' by {
            assert(s.skip(i)[k - i] == s[k]);
            assert((seq!['-'] + h + rest_enc)[k - i] == h[k - i - 1]);
            assert(is_hex_char(h[k - i - 1]));
        }
        if ss.drop_first().len() == 0 {
            assert(rest_enc.len() == 0);
            assert(i + 1 + hl == s.len());
        } else {
            lemma_segs_enc_first(ss.drop_first());
            assert(s[i + 1 + hl] == '-') by {
                assert(s.skip(i)[1 + hl] == s[i + 1 + hl]);
                assert((seq!['-'] + h + rest_enc)[1 + hl] == rest_enc[0]);
                assert(rest_enc[0] == '-');
            }
        }
        lemma_run_len_at(s, i + 1, hl, '-');
        let j = i + 1 + hl;
        assert(s.subrange(i + 1, j) =~= h) by {
            assert(forall|k: int|
                0 <= k < hl ==> s.subrange(i + 1, j)[k] == #[trigger] s.skip(i)[k + 1]);
            assert(forall|k: int|
                0 <= k < hl ==> (seq!['-'] + h + rest_enc)[k + 1] == #[trigger] h[k]);
        }
        lemma_hex6_roundtrip(ss[0]);
        assert(hex6_parse(s.subrange(i + 1, j)) == Some(ss[0]));
        assert(s.skip(j) =~= rest_enc) by {
            assert(forall|k: int|
                0 <= k < rest_enc.len() ==> s.skip(j)[k] == #[trigger] s.skip(i)[k + 1 + hl]);
            assert(forall|k: int|
                0 <= k < rest_enc.len() ==> (seq!['-'] + h + rest_enc)[k + 1 + hl]
                    == #[trigger] rest_enc[k]);
        }
        lemma_segs_parse_enc(s, j, ss.drop_first());
        assert(seq![ss[0]] + ss.drop_first() =~= ss);
    }
}

/// Parsing inverts encoding for whole payloads.
pub proof fn lemma_payload_roundtrip(u: UserView)
    requires
        wf_claims(u),
    ensures
        payload_parse(payload_chars(u)) == Some(u),
{
    let s = payload_chars(u);
    let ss = seq![u.primary_email] + u.emails;
    lemma_hexn_shape(u.exp, 16);
    lemma_segs_enc_len(ss);
    assert(s.len() >= 16 + ss.len());
    assert(s.take(16) =~= hexn(u.exp, 16));
    assert(pow16(16) == 0x10000000000000000) by {
        reveal_with_fuel(pow16, 17);
    }
    lemma_hexn_value(u.exp, 16);
    assert(s.skip(16) =~= segs_enc(ss));
    lemma_segs_parse_enc(s, 16, ss);
    assert(ss.drop_first() =~= u.emails);
    assert(payload_parse(s) == Some(
        UserView { primary_email: ss[0], emails: ss.drop_first(), exp: u.exp },
    ));
    assert(UserView { primary_email: ss[0], emails: ss.drop_first(), exp: u.exp } =~= u);
}

/// Every character of a payload is a hex digit or a dash — never a dot,
/// so the first dot of a credential ends the payload.
proof fn lemma_payload_no_dot(u: UserView)
    requires
        wf_claims(u),
    ensures
        forall|k: int| 0 <= k < payload_chars(u).len() ==> payload_chars(u)[k] != '.',
{
    let s = payload_chars(u);
    let ss = seq![u.primary_email] + u.emails;
    lemma_hexn_shape(u.exp, 16);
    lemma_segs_enc_shape(ss);
    assert forall|k: int| 0 <= k < s.len() implies s[k] != '.' by {
        if k < 16 {
            assert(s[k] == hexn(u.exp, 16)[k]);
            assert(is_hex_char(s[k]));
        } else {
            assert(s[k] == segs_enc(ss)[k - 16]);
        }
    }
}

/// Parsing and verifying inverts minting: a freshly minted credential
/// parses back to exactly the claim it was minted for.
pub proof fn lemma_token_roundtrip(u: UserView, secret: Seq<u8>)
    requires
        wf_claims(u),
    ensures
        token_parse(token_chars(u, secret), secret) == Some(u),
{
    let p = payload_chars(u);
    let tag = hmac_tag(secret, p);
    let t = token_chars(u, secret);
    lemma_payload_no_dot(u);
    assert forall|k: int| 0 <= k < p.len() implies t[k] != '.' by {
        assert(t[k] == p[k]);
    }
    assert(t[p.len() as int] == '.');
    lemma_run_len_at(t, 0, p.len() as int, '.');
    let d = p.len() as int;
    assert(t.take(d) =~= p);
    assert(t.skip(d + 1) =~= tag);
    lemma_payload_roundtrip(u);
}

/// A credential signed under the secret, not yet expired, whose emails
/// meet the allow-list, is accepted with exactly its minted claim.
pub proof fn lemma_gate_accepts_valid(
    u: UserView,
    secret: Seq<u8>,
    allowed: Seq<Seq<char>>,
    now: int,
)
    requires
        wf_claims(u),
        now < u.exp,
        emails_intersect(u.emails, allowed),
    ensures
        gate_spec(token_chars(u, secret), secret, allowed, now) == Ok::<UserView, Error>(u),
{
    lemma_token_roundtrip(u, secret);
}

/// A credential signed under the secret and not yet expired, but none of
/// whose emails is allow-listed, is turned away as `UserNotAllowed`. In
/// particular an empty allow-list blocks everyone.
pub proof fn lemma_gate_requires_allowlisted(
    u: UserView,
    secret: Seq<u8>,
    allowed: Seq<Seq<char>>,
    now: int,
)
    requires
        wf_claims(u),
        now < u.exp,
        !emails_intersect(u.emails, allowed),
    ensures
        gate_spec(token_chars(u, secret), secret, allowed, now) == Err::<UserView, Error>(
            Error::UserNotAllowed,
        ),
{
    lemma_token_roundtrip(u, secret);
}

/// Any credential whose signature part differs from the payload's tag —
/// a single changed byte suffices — is rejected as `UserNotAuthorized`,
/// whatever the payload says.
pub proof fn lemma_gate_rejects_wrong_tag(
    payload: Seq<char>,
    sig: Seq<char>,
    secret: Seq<u8>,
    allowed: Seq<Seq<char>>,
    now: int,
)
    requires
        forall|k: int| 0 <= k < payload.len() ==> payload[k] != '.',
        sig != hmac_tag(secret, payload),
    ensures
        gate_spec(payload + seq!['.'] + sig, secret, allowed, now) == Err::<UserView, Error>(
            Error::UserNotAuthorized,
        ),
{
    let t = payload + seq!['.'] + sig;
    assert forall|k: int| 0 <= k < payload.len() implies t[k] != '.' by {
        assert(t[k] == payload[k]);
    }
    assert(t[payload.len() as int] == '.');
    lemma_run_len_at(t, 0, payload.len() as int, '.');
    let d = payload.len() as int;
    assert(t.take(d) =~= payload);
    assert(t.skip(d + 1) =~= sig);
}

/// A credential whose claim has expired is rejected as
/// `UserNotAuthorized`, even when its signature verifies.
pub proof fn lemma_gate_rejects_expired(
    token: Seq<char>,
    secret: Seq<u8>,
    allowed: Seq<Seq<char>>,
    now: int,
)
    requires
        match token_parse(token, secret) {
            Some(u) => u.exp <= now,
            None => true,
        },
    ensures
        gate_spec(token, secret, allowed, now) == Err::<UserView, Error>(
            Error::UserNotAuthorized,
        ),
{
}

/// One email record as the identity provider reports it.
pub struct ProviderEmail {
    pub email: String,
    pub verified: bool,
    pub primary: bool,
}

/// The mathematical value of a provider email record.
#[verifier::ext_equal]
pub ghost struct ProviderEmailView {
    pub email: Seq<char>,
    pub verified: bool,
    pub primary: bool,
}

impl View for ProviderEmail {
    type V = ProviderEmailView;

    open spec fn view(&self) -> ProviderEmailView {
        ProviderEmailView { email: self.email@, verified: self.verified, primary: self.primary }
    }
}

impl DeepView for ProviderEmail {
    type V = ProviderEmailView;

    open spec fn deep_view(&self) -> ProviderEmailView {
        self.view()
    }
}

/// The provider-verified emails, in the provider's order.
pub open spec fn verified_emails(es: Seq<ProviderEmailView>) -> Seq<Seq<char>>
    decreases es.len(),
{
    if es.len() == 0 {
        Seq::empty()
    } else {
        let r = verified_emails(es.drop_last());
        if es.last().verified {
            r.push(es.last().email)
        } else {
            r
        }
    }
}

/// The first email the provider marks primary, if any.
pub open spec fn first_primary(es: Seq<ProviderEmailView>) -> Option<Seq<char>>
    decreases es.len(),
{
    if es.len() == 0 {
        None
    } else {
        match first_primary(es.drop_last()) {
            Some(x) => Some(x),
            None => if es.last().primary {
                Some(es.last().email)
            } else {
                None
            },
        }
    }
}

/// Distils the provider's email listing into a claim's emails: every
/// verified email is collected, the primary email is the first one
/// marked primary — falling back to the first verified email — and a
/// listing with no verified email at all fails the whole flow.
pub fn select_emails(entries: &Vec<ProviderEmail>) -> (r: Result<(String, Vec<String>), Error>)
    ensures
        verified_emails(entries.deep_view()).len() == 0 ==> (r matches Err(e) && e
            == Error::Authorize),
        verified_emails(entries.deep_view()).len() > 0 ==> (r matches Ok(pe)
            && pe.1.deep_view() == verified_emails(entries.deep_view()) && pe.0@ == (
        match first_primary(entries.deep_view()) {
            Some(x) => x,
            None => verified_emails(entries.deep_view())[0],
        })),
{
    let ghost es = entries.deep_view();
    let mut out: Vec<String> = Vec::new();
    let mut pf: Option<String> = None;
    let mut i: usize = 0;
    proof {
        assert(es.take(0) =~= Seq::<ProviderEmailView>::empty());
        assert(out.deep_view() =~= Seq::<Seq<char>>::empty());
    }
    while i < entries.len()
        invariant
            0 <= i <= es.len(),
            es == entries.deep_view(),
            out.deep_view() == verified_emails(es.take(i as int)),
            pf.deep_view() == first_primary(es.take(i as int)),
        decreases es.len() - i,
    {
        let ghost pre_out = out.deep_view();
        proof {
            assert(es.take(i + 1).drop_last() =~= es.take(i as int));
            assert(es.take(i + 1).last() == es[i as int]);
        }
        if pf.is_none() && entries[i].primary {
            pf = Some(entries[i].email.clone());
        }
        if entries[i].verified {
            out.push(entries[i].email.clone());
            proof {
                assert(out.deep_view() =~= pre_out.push(es[i as int].email));
            }
        }
        i = i + 1;
    }
    proof {
        assert(es.take(es.len() as int) =~= es);
    }
    if out.len() == 0 {
        return Err(Error::Authorize);
    }
    let primary = match pf {
        Some(p) => p,
        None => out[0].clone(),
    };
    Ok((primary, out))
}

} // verus!
