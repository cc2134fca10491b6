//! The wire codec: JSON-framed requests and responses.
//!
//! Each frame is one JSON object tagged by a discriminant field
//! (`request_type` on the way out, `response_type` on the way in).
//! The grammar of inbound frames is given by spec-level parsing
//! functions that consume a sequence of characters from the front;
//! the executable decoder is proved to agree with them exactly, and
//! the encoders are proved to produce the canonical frame text.

use vstd::prelude::*;
use crate::messages::{CardV, RequestV, ResponseV};
use crate::messages::{DongleRequest, DongleResponse, NewCard, PasswordDescriptions,
    PasswordLessCard, RFID};

verus! {

// ---------------------------------------------------------------------------
// Characters
// ---------------------------------------------------------------------------

/// JSON insignificant whitespace.
pub open spec fn is_ws(c: char) -> bool {
    c == ' ' || c == '\t' || c == '\n' || c == '\r'
}

/// A decimal digit.
pub open spec fn is_digit(c: char) -> bool {
    '0' <= c && c <= '9'
}

/// The hexadecimal digit for `d` in `0..16`, lower case.
pub open spec fn hex_digit(d: int) -> char {
    if d < 10 {
        (('0' as int) + d) as char
    } else {
        (('a' as int) + (d - 10)) as char
    }
}

/// The value of a hexadecimal digit character, or `None`.
pub open spec fn hex_value(c: char) -> Option<int> {
    if '0' <= c && c <= '9' {
        Some((c as int) - ('0' as int))
    } else if 'a' <= c && c <= 'f' {
        Some((c as int) - ('a' as int) + 10)
    } else if 'A' <= c && c <= 'F' {
        Some((c as int) - ('A' as int) + 10)
    } else {
        None
    }
}

/// Unicode scalar values: what a `char` may hold.
pub open spec fn is_scalar_value(v: int) -> bool {
    (0 <= v < 0xD800) || (0xE000 <= v <= 0x10FFFF)
}

// ---------------------------------------------------------------------------
// Canonical encoding
// ---------------------------------------------------------------------------

/// How one character is written inside a JSON string: quote and
/// backslash get a two-character escape, control characters a
/// `\u00XX` escape, everything else stands for itself.
pub open spec fn esc_char(c: char) -> Seq<char> {
    if c == '"' {
        seq!['\\', '"']
    } else if c == '\\' {
        seq!['\\', '\\']
    } else if (c as int) < 0x20 {
        seq!['\\', 'u', '0', '0', hex_digit((c as int) / 16), hex_digit((c as int) % 16)]
    } else {
        seq![c]
    }
}

/// A string body, character by character.
pub open spec fn esc_seq(s: Seq<char>) -> Seq<char>
    decreases s.len(),
{
    if s.len() == 0 {
        Seq::empty()
    } else {
        esc_char(s[0]) + esc_seq(s.drop_first())
    }
}

/// A JSON string: quoted, escaped body.
pub open spec fn quoted(s: Seq<char>) -> Seq<char> {
    seq!['"'] + esc_seq(s) + seq!['"']
}

/// The decimal digits of `n`, most significant first.
pub open spec fn dec_digits(n: nat) -> Seq<char>
    decreases n,
{
    if n < 10 {
        seq![hex_digit(n as int)]
    } else {
        dec_digits(n / 10) + seq![hex_digit((n % 10) as int)]
    }
}

/// One object member: quoted key, colon, encoded value.
pub open spec fn member(key: Seq<char>, value: Seq<char>) -> Seq<char> {
    quoted(key) + seq![':'] + value
}

/// The canonical frame for one credential description.
pub open spec fn card_json(c: CardV) -> Seq<char> {
    seq!['{'] + member("name"@, quoted(c.name)) + seq![','] + member("rfid"@, dec_digits(
        c.rfid as nat,
    )) + seq!['}']
}

/// The canonical comma-separated list of credential descriptions.
pub open spec fn cards_json(cs: Seq<CardV>) -> Seq<char>
    decreases cs.len(),
{
    if cs.len() == 0 {
        Seq::empty()
    } else if cs.len() == 1 {
        card_json(cs[0])
    } else {
        card_json(cs[0]) + seq![','] + cards_json(cs.drop_first())
    }
}

/// The opening of a tagged frame: brace, discriminant member.
pub open spec fn tagged_open(field: Seq<char>, tag: Seq<char>) -> Seq<char> {
    seq!['{'] + member(field, quoted(tag))
}

/// The canonical frame for a response, as the dongle mirrors it.
pub open spec fn response_json(r: ResponseV) -> Seq<char> {
    match r {
        ResponseV::Descriptions(cs) => tagged_open("response_type"@, "get_pass_descs"@) + seq![
            ','
        ] + member("descriptions"@, seq!['['] + cards_json(cs) + seq![']']) + seq!['}'],
        ResponseV::Rfid(n) => tagged_open("response_type"@, "detected_rfid"@) + seq![','] + member(
            "rfid"@,
            dec_digits(n as nat),
        ) + seq!['}'],
        ResponseV::ConfirmNewCard => tagged_open("response_type"@, "send_new_card"@) + seq!['}'],
    }
}

/// The canonical frame for a request.
pub open spec fn request_json(q: RequestV) -> Seq<char> {
    match q {
        RequestV::GetPassDescs => tagged_open("request_type"@, "get_pass_descs"@) + seq!['}'],
        RequestV::BoardSwitchMain => tagged_open("request_type"@, "BoardSwitchMain"@) + seq!['}'],
        RequestV::NewCard(c) => tagged_open("request_type"@, "send_new_card"@) + seq![','] + member(
            "name"@,
            quoted(c.name),
        ) + seq![','] + member("password"@, quoted(c.password)) + seq!['}'],
        RequestV::ClearPasswords => tagged_open("request_type"@, "ClearPasswords"@) + seq!['}'],
    }
}

// ---------------------------------------------------------------------------
// The inbound grammar: parsing functions that consume from the front
// ---------------------------------------------------------------------------

/// Drop leading whitespace.
pub open spec fn skip_ws(s: Seq<char>) -> Seq<char>
    decreases s.len(),
{
    if s.len() > 0 && is_ws(s[0]) {
        skip_ws(s.drop_first())
    } else {
        s
    }
}

/// Consume the exact characters of `l`, or fail.
pub open spec fn parse_lit(s: Seq<char>, l: Seq<char>) -> Option<Seq<char>> {
    if l.len() <= s.len() && s.take(l.len() as int) == l {
        Some(s.skip(l.len() as int))
    } else {
        None
    }
}

/// Consume one escape sequence, after the backslash.
pub open spec fn parse_escape(s: Seq<char>) -> Option<(char, Seq<char>)> {
    if s.len() == 0 {
        None
    } else if s[0] == '"' || s[0] == '\\' || s[0] == '/' {
        Some((s[0], s.drop_first()))
    } else if s[0] == 'b' {
        Some((8 as char, s.drop_first()))
    } else if s[0] == 'f' {
        Some((12 as char, s.drop_first()))
    } else if s[0] == 'n' {
        Some(('\n', s.drop_first()))
    } else if s[0] == 'r' {
        Some(('\r', s.drop_first()))
    } else if s[0] == 't' {
        Some(('\t', s.drop_first()))
    } else if s[0] == 'u' && s.len() >= 5 {
        match (hex_value(s[1]), hex_value(s[2]), hex_value(s[3]), hex_value(s[4])) {
            (Some(a), Some(b), Some(c), Some(d)) => {
                let v = a * 0x1000 + b * 0x100 + c * 0x10 + d;
                if is_scalar_value(v) {
                    Some(((v as char), s.skip(5)))
                } else {
                    None
                }
            },
            _ => None,
        }
    } else {
        None
    }
}

/// Consume a string body up to and including the closing quote.
pub open spec fn parse_str_body(s: Seq<char>) -> Option<(Seq<char>, Seq<char>)>
    decreases s.len(),
{
    if s.len() == 0 {
        None
    } else if s[0] == '"' {
        Some((Seq::empty(), s.drop_first()))
    } else if s[0] == '\\' {
        match parse_escape(s.drop_first()) {
            Some((c, s1)) => if s1.len() < s.len() {
                match parse_str_body(s1) {
                    Some((t, s2)) => Some((seq![c] + t, s2)),
                    None => None,
                }
            } else {
                None
            },
            None => None,
        }
    } else if (s[0] as int) < 0x20 {
        None
    } else {
        match parse_str_body(s.drop_first()) {
            Some((t, s2)) => Some((seq![s[0]] + t, s2)),
            None => None,
        }
    }
}

/// Consume a JSON string, opening quote included.
pub open spec fn parse_string(s: Seq<char>) -> Option<(Seq<char>, Seq<char>)> {
    if s.len() > 0 && s[0] == '"' {
        parse_str_body(s.drop_first())
    } else {
        None
    }
}

/// Consume further decimal digits, folding them onto `acc`; fails on
/// a value beyond `u64::MAX`.
pub open spec fn parse_u64_loop(s: Seq<char>, acc: u64) -> Option<(u64, Seq<char>)>
    decreases s.len(),
{
    if s.len() > 0 && is_digit(s[0]) {
        let d = (s[0] as int) - ('0' as int);
        if (acc as int) * 10 + d > u64::MAX as int {
            None
        } else {
            parse_u64_loop(s.drop_first(), ((acc as int) * 10 + d) as u64)
        }
    } else {
        Some((acc, s))
    }
}

/// Consume an unsigned decimal number that fits in a `u64`.
pub open spec fn parse_u64(s: Seq<char>) -> Option<(u64, Seq<char>)> {
    if s.len() > 0 && is_digit(s[0]) {
        parse_u64_loop(s, 0)
    } else {
        None
    }
}

/// Consume one credential description object.
pub open spec fn parse_card(s: Seq<char>) -> Option<(CardV, Seq<char>)> {
    match parse_lit(skip_ws(s), seq!['{']) {
        Some(s1) => match parse_lit(skip_ws(s1), quoted("name"@)) {
            Some(s2) => match parse_lit(skip_ws(s2), seq![':']) {
                Some(s3) => match parse_string(skip_ws(s3)) {
                    Some((name, s4)) => match parse_lit(skip_ws(s4), seq![',']) {
                        Some(s5) => match parse_lit(skip_ws(s5), quoted("rfid"@)) {
                            Some(s6) => match parse_lit(skip_ws(s6), seq![':']) {
                                Some(s7) => match parse_u64(skip_ws(s7)) {
                                    Some((rfid, s8)) => match parse_lit(skip_ws(s8), seq!['}']) {
                                        Some(s9) => Some((CardV { name, rfid }, s9)),
                                        None => None,
                                    },
                                    None => None,
                                },
                                None => None,
                            },
                            None => None,
                        },
                        None => None,
                    },
                    None => None,
                },
                None => None,
            },
            None => None,
        },
        None => None,
    }
}

/// Consume the members of a description list after the first one:
/// either the closing bracket or a comma and a further description.
pub open spec fn parse_cards_more(s: Seq<char>) -> Option<(Seq<CardV>, Seq<char>)>
    decreases s.len(),
{
    let s1 = skip_ws(s);
    match parse_lit(s1, seq![']']) {
        Some(s2) => Some((Seq::empty(), s2)),
        None => match parse_lit(s1, seq![',']) {
            Some(s2) => match parse_card(s2) {
                Some((c, s3)) => if s3.len() < s.len() {
                    match parse_cards_more(s3) {
                        Some((cs, s4)) => Some((seq![c] + cs, s4)),
                        None => None,
                    }
                } else {
                    None
                },
                None => None,
            },
            None => None,
        },
    }
}

/// Consume a bracketed description list.
pub open spec fn parse_cards(s: Seq<char>) -> Option<(Seq<CardV>, Seq<char>)> {
    match parse_lit(skip_ws(s), seq!['[']) {
        Some(s1) => match parse_lit(skip_ws(s1), seq![']']) {
            Some(s2) => Some((Seq::empty(), s2)),
            None => match parse_card(s1) {
                Some((c, s2)) => if s2.len() < s.len() {
                    match parse_cards_more(s2) {
                        Some((cs, s3)) => Some((seq![c] + cs, s3)),
                        None => None,
                    }
                } else {
                    None
                },
                None => None,
            },
        },
        None => None,
    }
}

/// Consume the rest of a descriptions frame, after its tag.
pub open spec fn parse_descriptions_rest(s: Seq<char>) -> Option<(ResponseV, Seq<char>)> {
    match parse_lit(skip_ws(s), seq![',']) {
        Some(s1) => match parse_lit(skip_ws(s1), quoted("descriptions"@)) {
            Some(s2) => match parse_lit(skip_ws(s2), seq![':']) {
                Some(s3) => match parse_cards(s3) {
                    Some((cs, s4)) => match parse_lit(skip_ws(s4), seq!['}']) {
                        Some(s5) => Some((ResponseV::Descriptions(cs), s5)),
                        None => None,
                    },
                    None => None,
                },
                None => None,
            },
            None => None,
        },
        None => None,
    }
}

/// Consume the rest of a tag detection frame, after its tag.
pub open spec fn parse_rfid_rest(s: Seq<char>) -> Option<(ResponseV, Seq<char>)> {
    match parse_lit(skip_ws(s), seq![',']) {
        Some(s1) => match parse_lit(skip_ws(s1), quoted("rfid"@)) {
            Some(s2) => match parse_lit(skip_ws(s2), seq![':']) {
                Some(s3) => match parse_u64(skip_ws(s3)) {
                    Some((n, s4)) => match parse_lit(skip_ws(s4), seq!['}']) {
                        Some(s5) => Some((ResponseV::Rfid(n), s5)),
                        None => None,
                    },
                    None => None,
                },
                None => None,
            },
            None => None,
        },
        None => None,
    }
}

/// Consume the rest of a provisioning confirmation frame, after its tag.
pub open spec fn parse_confirm_rest(s: Seq<char>) -> Option<(ResponseV, Seq<char>)> {
    match parse_lit(skip_ws(s), seq!['}']) {
        Some(s1) => Some((ResponseV::ConfirmNewCard, s1)),
        None => None,
    }
}

/// Consume one response frame: brace, `response_type` member, then
/// whatever the tag demands.
pub open spec fn parse_response_frame(s: Seq<char>) -> Option<(ResponseV, Seq<char>)> {
    match parse_lit(skip_ws(s), seq!['{']) {
        Some(s1) => match parse_lit(skip_ws(s1), quoted("response_type"@)) {
            Some(s2) => match parse_lit(skip_ws(s2), seq![':']) {
                Some(s3) => {
                    let s4 = skip_ws(s3);
                    match parse_lit(s4, quoted("get_pass_descs"@)) {
                        Some(s5) => parse_descriptions_rest(s5),
                        None => match parse_lit(s4, quoted("detected_rfid"@)) {
                            Some(s5) => parse_rfid_rest(s5),
                            None => match parse_lit(s4, quoted("send_new_card"@)) {
                                Some(s5) => parse_confirm_rest(s5),
                                None => None,
                            },
                        },
                    }
                },
                None => None,
            },
            None => None,
        },
        None => None,
    }
}

/// The meaning of one whole inbound frame: a response if the text is
/// exactly one response frame, possibly surrounded by whitespace.
pub open spec fn frame_meaning(s: Seq<char>) -> Option<ResponseV> {
    match parse_response_frame(s) {
        Some((r, rest)) => if skip_ws(rest).len() == 0 {
            Some(r)
        } else {
            None
        },
        None => None,
    }
}

// ---------------------------------------------------------------------------
// Executable encoding
// ---------------------------------------------------------------------------

/// Relies on `String::push`: appends exactly one character.
#[verifier::external_body]
fn push_char(s: &mut String, c: char)
    ensures
        final(s)@ == old(s)@ + seq![c],
{
    s.push(c);
}

/// Relies on `char::from_u32`: `Some` exactly for Unicode scalar values,
/// holding the character with that value.
#[verifier::external_body]
fn char_from_u32(v: u32) -> (r: Option<char>)
    ensures
        r == (if is_scalar_value(v as int) {
            Some(v as char)
        } else {
            None::<char>
        }),
{
    char::from_u32(v)
}

/// The lower-case hexadecimal digit character for `d`.
fn hex_digit_char(d: u8) -> (c: char)
    requires
        d < 16,
    ensures
        c == hex_digit(d as int),
{
    if d < 10 {
        (48 + d) as char
    } else {
        (97 + (d - 10)) as char
    }
}

/// Writing one more character onto a string body extends its encoding.
proof fn lemma_esc_seq_snoc(s: Seq<char>, c: char)
    ensures
        esc_seq(s + seq![c]) == esc_seq(s) + esc_char(c),
    decreases s.len(),
{
    if s.len() == 0 {
        assert(s + seq![c] =~= seq![c]);
        assert((s + seq![c]).drop_first() =~= Seq::<char>::empty());
        assert((s + seq![c])[0] == c);
        assert(esc_seq(s + seq![c]) == esc_char(c) + esc_seq((s + seq![c]).drop_first()));
        assert(esc_seq(s + seq![c]) =~= esc_seq(s) + esc_char(c));
    } else {
        lemma_esc_seq_snoc(s.drop_first(), c);
        assert((s + seq![c]).drop_first() =~= s.drop_first() + seq![c]);
        assert((s + seq![c])[0] == s[0]);
        assert(esc_seq(s + seq![c]) == esc_char(s[0]) + esc_seq(s.drop_first() + seq![c]));
        assert(esc_seq(s + seq![c]) =~= esc_seq(s) + esc_char(c));
    }
}

/// Appends `quoted(s@)` to `out`.
fn push_quoted(out: &mut String, s: &str)
    ensures
        final(out)@ == old(out)@ + quoted(s@),
{
    let n = s.unicode_len();
    push_char(out, '"');
    let mut i: usize = 0;
    while i < n
        invariant
            n == s@.len(),
            i <= n,
            out@ == old(out)@ + seq!['"'] + esc_seq(s@.take(i as int)),
        decreases n - i,
    {
        let c = s.get_char(i);
        proof {
            assert(s@.take(i as int + 1) =~= s@.take(i as int) + seq![s@[i as int]]);
            lemma_esc_seq_snoc(s@.take(i as int), s@[i as int]);
        }
        if c == '"' {
            push_char(out, '\\');
            push_char(out, '"');
        } else if c == '\\' {
            push_char(out, '\\');
            push_char(out, '\\');
        } else if (c as u32) < 0x20 {
            let v = c as u8;
            push_char(out, '\\');
            push_char(out, 'u');
            push_char(out, '0');
            push_char(out, '0');
            push_char(out, hex_digit_char(v / 16));
            push_char(out, hex_digit_char(v % 16));
        }
        else {
            push_char(out, c);
        }
        i = i + 1;
    }
    proof {
        assert(s@.take(n as int) =~= s@);
        assert(old(out)@ + seq!['"'] + esc_seq(s@) + seq!['"'] =~= old(out)@ + quoted(s@));
    }
    push_char(out, '"');
}

/// Appends the decimal digits of `n` to `out`.
fn push_u64(out: &mut String, n: u64)
    ensures
        final(out)@ == old(out)@ + dec_digits(n as nat),
    decreases n,
{
    if n < 10 {
        push_char(out, hex_digit_char(n as u8));
    } else {
        push_u64(out, n / 10);
        push_char(out, hex_digit_char((n % 10) as u8));
    }
}

/// Appends a discriminant member, brace included.
fn push_tagged_open(out: &mut String, field: &str, tag: &str)
    ensures
        final(out)@ == old(out)@ + tagged_open(field@, tag@),
{
    push_char(out, '{');
    push_quoted(out, field);
    push_char(out, ':');
    push_quoted(out, tag);
    proof {
        assert(old(out)@ + seq!['{'] + quoted(field@) + seq![':'] + quoted(tag@) =~= old(out)@
            + tagged_open(field@, tag@));
    }
}

/// Appends a member under the given key.
fn push_key(out: &mut String, key: &str)
    ensures
        final(out)@ == old(out)@ + seq![','] + quoted(key@) + seq![':'],
{
    push_char(out, ',');
    push_quoted(out, key);
    push_char(out, ':');
}

/// Serializes one request as the frame written to the port.
pub fn encode_request(q: &DongleRequest) -> (r: String)
    ensures
        r@ == request_json(q@),
{
    let mut out = String::new();
    match q {
        DongleRequest::GetPasswordDescriptionsAndSwitchReader => {
            push_tagged_open(&mut out, "request_type", "get_pass_descs");
            push_char(&mut out, '}');
        },
        DongleRequest::BoardSwitchMain => {
            push_tagged_open(&mut out, "request_type", "BoardSwitchMain");
            push_char(&mut out, '}');
        },
        DongleRequest::NewCard(card) => {
            push_tagged_open(&mut out, "request_type", "send_new_card");
            push_key(&mut out, "name");
            push_quoted(&mut out, card.name.as_str());
            push_key(&mut out, "password");
            push_quoted(&mut out, card.password.as_str());
            push_char(&mut out, '}');
            proof {
                assert(out@ =~= request_json(q@));
            }
        },
        DongleRequest::ClearPasswords => {
            push_tagged_open(&mut out, "request_type", "ClearPasswords");
            push_char(&mut out, '}');
        },
    }
    proof {
        assert(out@ =~= request_json(q@));
    }
    out
}

/// Serializes one response exactly as the dongle frames it; the mirror
/// image of [`decode_response`], used to model the device on the far
/// end of the link.
pub fn encode_response(resp: &DongleResponse) -> (r: String)
    ensures
        r@ == response_json(resp@),
{
    let mut out = String::new();
    match resp {
        DongleResponse::SendPasswordDescriptions(d) => {
            push_tagged_open(&mut out, "response_type", "get_pass_descs");
            push_key(&mut out, "descriptions");
            push_char(&mut out, '[');
            let mut k: usize = 0;
            let m = d.descriptions.len();
            proof {
                assert(d@.take(0) =~= Seq::<CardV>::empty());
                assert(out@ =~= tagged_open("response_type"@, "get_pass_descs"@) + seq![',']
                    + quoted("descriptions"@) + seq![':'] + seq!['['] + cards_json(d@.take(0)));
            }
            while k < m
                invariant
                    m == d.descriptions.len(),
                    k <= m,
                    out@ == tagged_open("response_type"@, "get_pass_descs"@) + seq![','] + quoted(
                        "descriptions"@,
                    ) + seq![':'] + seq!['['] + cards_json(d@.take(k as int)),
                decreases m - k,
            {
                if k > 0 {
                    push_char(&mut out, ',');
                }
                let card = &d.descriptions[k];
                push_char(&mut out, '{');
                push_quoted(&mut out, "name");
                push_char(&mut out, ':');
                push_quoted(&mut out, card.name.as_str());
                push_key(&mut out, "rfid");
                push_u64(&mut out, card.rfid);
                push_char(&mut out, '}');
                proof {
                    assert(d@.take(k as int + 1) =~= d@.take(k as int) + seq![d@[k as int]]);
                    lemma_cards_json_snoc(d@.take(k as int), d@[k as int]);
                    assert(card@ == d@[k as int]);
                    assert(card_json(card@) =~= seq!['{'] + quoted("name"@) + seq![':'] + quoted(
                        card@.name,
                    ) + seq![','] + quoted("rfid"@) + seq![':'] + dec_digits(card@.rfid as nat)
                        + seq!['}']);
                    assert(out@ =~= tagged_open("response_type"@, "get_pass_descs"@) + seq![',']
                        + quoted("descriptions"@) + seq![':'] + seq!['['] + cards_json(
                        d@.take(k as int + 1),
                    ));
                }
                k = k + 1;
            }
            push_char(&mut out, ']');
            push_char(&mut out, '}');
            proof {
                assert(d@.take(m as int) =~= d@);
                assert(out@ =~= response_json(resp@));
            }
        },
        DongleResponse::RFIDDetected(r) => {
            push_tagged_open(&mut out, "response_type", "detected_rfid");
            push_key(&mut out, "rfid");
            push_u64(&mut out, r.rfid);
            push_char(&mut out, '}');
            proof {
                assert(out@ =~= response_json(resp@));
            }
        },
        DongleResponse::ConfirmNewCard => {
            push_tagged_open(&mut out, "response_type", "send_new_card");
            push_char(&mut out, '}');
            proof {
                assert(out@ =~= response_json(resp@));
            }
        },
    }
    out
}

// ---------------------------------------------------------------------------
// Executable decoding
// ---------------------------------------------------------------------------

/// Characters that stand for themselves inside a JSON string.
pub open spec fn plain(l: Seq<char>) -> bool {
    forall|k: int| 0 <= k < l.len() ==> l[k] != '"' && l[k] != '\\' && (l[k] as int) >= 0x20
}

/// A plain sequence is its own string body.
proof fn lemma_plain_esc(l: Seq<char>)
    requires
        plain(l),
    ensures
        esc_seq(l) == l,
    decreases l.len(),
{
    if l.len() == 0 {
        assert(esc_seq(l) =~= l);
    } else {
        assert(plain(l.drop_first())) by {
            assert(forall|k: int|
                0 <= k < l.drop_first().len() ==> l.drop_first()[k] == l[k + 1]);
        }
        lemma_plain_esc(l.drop_first());
        assert(l[0] != '"' && l[0] != '\\' && (l[0] as int) >= 0x20);
        assert(esc_char(l[0]) == seq![l[0]]);
        assert(esc_seq(l) =~= l);
    }
}

/// Consuming the characters of `a + b` is consuming those of `a`,
/// then those of `b`.
proof fn lemma_parse_lit_concat(s: Seq<char>, a: Seq<char>, b: Seq<char>)
    ensures
        parse_lit(s, a + b) == match parse_lit(s, a) {
            Some(r) => parse_lit(r, b),
            None => None,
        },
{
    let ab = a + b;
    if a.len() <= s.len() && s.take(a.len() as int) == a {
        let r = s.skip(a.len() as int);
        if b.len() <= r.len() && r.take(b.len() as int) == b {
            assert(ab.len() <= s.len());
            assert(s.take(ab.len() as int) =~= a + b) by {
                assert(forall|k: int|
                    0 <= k < a.len() ==> s.take(ab.len() as int)[k] == s.take(a.len() as int)[k]);
                assert(forall|k: int|
                    0 <= k < b.len() ==> s.take(ab.len() as int)[a.len() + k] == r.take(
                        b.len() as int,
                    )[k]);
            }
            assert(s.skip(ab.len() as int) =~= r.skip(b.len() as int));
        } else {
            if ab.len() <= s.len() && s.take(ab.len() as int) == ab {
                assert(r.take(b.len() as int) =~= b) by {
                    assert(forall|k: int|
                        0 <= k < b.len() ==> r.take(b.len() as int)[k] == s.take(
                            ab.len() as int,
                        )[a.len() + k]);
                }
            }
        }
    } else {
        if ab.len() <= s.len() && s.take(ab.len() as int) == ab {
            assert(s.take(a.len() as int) =~= a) by {
                assert(forall|k: int|
                    0 <= k < a.len() ==> s.take(a.len() as int)[k] == s.take(ab.len() as int)[k]);
            }
        }
    }
}

/// Advance past leading whitespace.
fn scan_ws(s: &str, n: usize, i: usize) -> (j: usize)
    requires
        n == s@.len(),
        i <= n,
    ensures
        i <= j <= n,
        s@.skip(j as int) == skip_ws(s@.skip(i as int)),
{
    let mut j = i;
    loop
        invariant
            n == s@.len(),
            i <= j <= n,
            skip_ws(s@.skip(i as int)) == skip_ws(s@.skip(j as int)),
        ensures
            i <= j <= n,
            s@.skip(j as int) == skip_ws(s@.skip(i as int)),
        decreases n - j,
    {
        if j >= n {
            proof {
                assert(s@.skip(j as int).len() == 0);
            }
            break;
        }
        let c = s.get_char(j);
        proof {
            assert(s@.skip(j as int)[0] == s@[j as int]);
        }
        if !(c == ' ' || c == '\t' || c == '\n' || c == '\r') {
            break;
        }
        proof {
            assert(s@.skip(j as int).drop_first() =~= s@.skip(j as int + 1));
        }
        j = j + 1;
    }
    j
}

/// Whether the characters of `l` stand at position `i`.
fn match_chars(s: &str, n: usize, i: usize, l: &str, ln: usize) -> (r: bool)
    requires
        n == s@.len(),
        i <= n,
        ln == l@.len(),
    ensures
        r == (i + ln <= n && s@.subrange(i as int, i as int + ln as int) == l@),
{
    if ln > n - i {
        proof {
            assert(i + ln > n);
        }
        return false;
    }
    let mut k: usize = 0;
    loop
        invariant
            n == s@.len(),
            ln == l@.len(),
            i + ln <= n,
            k <= ln,
            forall|t: int| 0 <= t < k ==> s@[i + t] == l@[t],
        ensures
            (k == ln && forall|t: int| 0 <= t < k ==> s@[i + t] == l@[t]) || (k < ln && s@[i
                + k as int] != l@[k as int]),
        decreases ln - k,
    {
        if k >= ln {
            break;
        }
        let a = s.get_char(i + k);
        let b = l.get_char(k);
        if a != b {
            break;
        }
        k = k + 1;
    }
    if k == ln {
        proof {
            assert(s@.subrange(i as int, i as int + ln as int) =~= l@);
        }
        true
    } else {
        proof {
            assert(s@.subrange(i as int, i as int + ln as int)[k as int] == s@[i + k as int]);
        }
        false
    }
}

/// Consume one expected character.
fn scan_char(s: &str, n: usize, i: usize, c: char) -> (r: Option<usize>)
    requires
        n == s@.len(),
        i <= n,
    ensures
        match r {
            Some(j) => j == i + 1 && j <= n && parse_lit(s@.skip(i as int), seq![c]) == Some(
                s@.skip(j as int),
            ),
            None => parse_lit(s@.skip(i as int), seq![c]) is None,
        },
{
    if i < n {
        let g = s.get_char(i);
        proof {
            assert(s@.skip(i as int)[0] == s@[i as int]);
        }
        if g == c {
            proof {
                assert(s@.skip(i as int).take(1) =~= seq![c]);
                assert(s@.skip(i as int).skip(1) =~= s@.skip(i as int + 1));
            }
            Some(i + 1)
        } else {
            proof {
                assert(s@.skip(i as int).take(1)[0] == s@[i as int]);
            }
            None
        }
    } else {
        None
    }
}

/// Consume an expected quoted literal; `l` must need no escaping.
fn scan_quoted_lit(s: &str, n: usize, i: usize, l: &str) -> (r: Option<usize>)
    requires
        n == s@.len(),
        i <= n,
        plain(l@),
    ensures
        match r {
            Some(j) => i < j <= n && parse_lit(s@.skip(i as int), quoted(l@)) == Some(
                s@.skip(j as int),
            ),
            None => parse_lit(s@.skip(i as int), quoted(l@)) is None,
        },
{
    let ln = l.unicode_len();
    proof {
        lemma_plain_esc(l@);
        assert(quoted(l@) =~= seq!['"'] + (l@ + seq!['"']));
        lemma_parse_lit_concat(s@.skip(i as int), seq!['"'], l@ + seq!['"']);
    }
    match scan_char(s, n, i, '"') {
        Some(j1) => {
            proof {
                lemma_parse_lit_concat(s@.skip(j1 as int), l@, seq!['"']);
            }
            if match_chars(s, n, j1, l, ln) {
                proof {
                    assert(s@.skip(j1 as int).take(ln as int) =~= s@.subrange(
                        j1 as int,
                        j1 as int + ln as int,
                    ));
                    assert(s@.skip(j1 as int).skip(ln as int) =~= s@.skip(j1 as int + ln as int));
                }
                scan_char(s, n, j1 + ln, '"')
            } else {
                proof {
                    let rest = s@.skip(j1 as int);
                    if ln <= rest.len() && rest.take(ln as int) == l@ {
                        assert(rest.take(ln as int) =~= s@.subrange(
                            j1 as int,
                            j1 as int + ln as int,
                        ));
                    }
                }
                None
            }
        },
        None => None,
    }
}

/// The value of one hexadecimal digit character.
fn hex_value_char(c: char) -> (r: Option<u8>)
    ensures
        match r {
            Some(v) => hex_value(c) == Some(v as int) && v < 16,
            None => hex_value(c) is None,
        },
{
    let v = c as u32;
    if 48 <= v && v <= 57 {
        Some((v - 48) as u8)
    } else if 97 <= v && v <= 102 {
        Some((v - 97 + 10) as u8)
    } else if 65 <= v && v <= 70 {
        Some((v - 65 + 10) as u8)
    } else {
        None
    }
}

/// Consume one escape sequence, after the backslash.
fn scan_escape(s: &str, n: usize, i: usize) -> (r: Option<(char, usize)>)
    requires
        n == s@.len(),
        i <= n,
    ensures
        match r {
            Some((c, j)) => i < j <= n && parse_escape(s@.skip(i as int)) == Some(
                (c, s@.skip(j as int)),
            ),
            None => parse_escape(s@.skip(i as int)) is None,
        },
{
    if i >= n {
        return None;
    }
    let e = s.get_char(i);
    proof {
        assert(s@.skip(i as int)[0] == s@[i as int]);
        assert(s@.skip(i as int).drop_first() =~= s@.skip(i as int + 1));
    }
    if e == '"' || e == '\\' || e == '/' {
        Some((e, i + 1))
    } else if e == 'b' {
        Some((8 as char, i + 1))
    } else if e == 'f' {
        Some((12 as char, i + 1))
    } else if e == 'n' {
        Some(('\n', i + 1))
    } else if e == 'r' {
        Some(('\r', i + 1))
    } else if e == 't' {
        Some(('\t', i + 1))
    } else if e == 'u' {
        if n - i < 5 {
            return None;
        }
        proof {
            assert(s@.skip(i as int)[1] == s@[i as int + 1]);
            assert(s@.skip(i as int)[2] == s@[i as int + 2]);
            assert(s@.skip(i as int)[3] == s@[i as int + 3]);
            assert(s@.skip(i as int)[4] == s@[i as int + 4]);
        }
        let h1 = hex_value_char(s.get_char(i + 1));
        let h2 = hex_value_char(s.get_char(i + 2));
        let h3 = hex_value_char(s.get_char(i + 3));
        let h4 = hex_value_char(s.get_char(i + 4));
        match (h1, h2, h3, h4) {
            (Some(a), Some(b), Some(c), Some(d)) => {
                let v: u32 = (a as u32) * 0x1000 + (b as u32) * 0x100 + (c as u32) * 0x10 + (
                d as u32);
                match char_from_u32(v) {
                    Some(ch) => {
                        proof {
                            assert(s@.skip(i as int).skip(5) =~= s@.skip(i as int + 5));
                        }
                        Some((ch, i + 5))
                    },
                    None => None,
                }
            },
            _ => None,
        }
    } else {
        None
    }
}

/// Consume a JSON string, opening quote included, decoding escapes.
fn scan_string(s: &str, n: usize, i: usize) -> (r: Option<(String, usize)>)
    requires
        n == s@.len(),
        i <= n,
    ensures
        match r {
            Some((t, j)) => i < j <= n && parse_string(s@.skip(i as int)) == Some(
                (t@, s@.skip(j as int)),
            ),
            None => parse_string(s@.skip(i as int)) is None,
        },
{
    if i >= n {
        return None;
    }
    let c0 = s.get_char(i);
    proof {
        assert(s@.skip(i as int)[0] == s@[i as int]);
    }
    if c0 != '"' {
        return None;
    }
    proof {
        assert(s@.skip(i as int).drop_first() =~= s@.skip(i as int + 1));
        assert(forall|t: Seq<char>| Seq::<char>::empty() + t =~= t);
    }
    let mut out = String::new();
    let mut j = i + 1;
    loop
        invariant
            n == s@.len(),
            i + 1 <= j <= n,
            parse_string(s@.skip(i as int)) == (match parse_str_body(s@.skip(j as int)) {
                Some((t, rest)) => Some::<(Seq<char>, Seq<char>)>((out@ + t, rest)),
                None => None::<(Seq<char>, Seq<char>)>,
            }),
        decreases n - j,
    {
        if j >= n {
            proof {
                assert(s@.skip(j as int).len() == 0);
            }
            return None;
        }
        let c = s.get_char(j);
        proof {
            assert(s@.skip(j as int)[0] == s@[j as int]);
            assert(s@.skip(j as int).drop_first() =~= s@.skip(j as int + 1));
        }
        if c == '"' {
            proof {
                assert(out@ + Seq::<char>::empty() =~= out@);
            }
            return Some((out, j + 1));
        } else if c == '\\' {
            match scan_escape(s, n, j + 1) {
                Some((dc, j2)) => {
                    proof {
                        assert(s@.skip(j2 as int).len() < s@.skip(j as int).len());
                        assert(forall|t: Seq<char>| out@ + (seq![dc] + t) =~= (out@ + seq![dc])
                            + t);
                    }
                    push_char(&mut out, dc);
                    j = j2;
                },
                None => {
                    return None;
                },
            }
        } else if (c as u32) < 0x20 {
            return None;
        } else {
            proof {
                assert(forall|t: Seq<char>| out@ + (seq![c] + t) =~= (out@ + seq![c]) + t);
            }
            push_char(&mut out, c);
            j = j + 1;
        }
    }
}

/// Consume an unsigned decimal number.
fn scan_u64(s: &str, n: usize, i: usize) -> (r: Option<(u64, usize)>)
    requires
        n == s@.len(),
        i <= n,
    ensures
        match r {
            Some((v, j)) => i < j <= n && parse_u64(s@.skip(i as int)) == Some(
                (v, s@.skip(j as int)),
            ),
            None => parse_u64(s@.skip(i as int)) is None,
        },
{
    if i >= n {
        return None;
    }
    let c0 = s.get_char(i);
    proof {
        assert(s@.skip(i as int)[0] == s@[i as int]);
    }
    let v0 = c0 as u32;
    if !(48 <= v0 && v0 <= 57) {
        proof {
            assert(!is_digit(s@[i as int]));
        }
        return None;
    }
    let mut acc: u64 = 0;
    let mut j = i;
    loop
        invariant
            n == s@.len(),
            i <= j <= n,
            i < n,
            is_digit(s@[i as int]),
            parse_u64(s@.skip(i as int)) == parse_u64_loop(s@.skip(j as int), acc),
        ensures
            i < j <= n,
            parse_u64(s@.skip(i as int)) == Some::<(u64, Seq<char>)>((acc, s@.skip(j as int))),
        decreases n - j,
    {
        if j >= n {
            proof {
                assert(s@.skip(j as int).len() == 0);
                assert(j > i);
            }
            break;
        }
        let c = s.get_char(j);
        proof {
            assert(s@.skip(j as int)[0] == s@[j as int]);
            assert(s@.skip(j as int).drop_first() =~= s@.skip(j as int + 1));
        }
        let v = c as u32;
        if !(48 <= v && v <= 57) {
            proof {
                assert(!is_digit(s@[j as int]));
                assert(j > i);
            }
            break;
        }
        proof {
            assert(is_digit(s@[j as int]));
        }
        let d = v - 48;
        match acc.checked_mul(10) {
            Some(m) => match m.checked_add(d as u64) {
                Some(a2) => {
                    acc = a2;
                    j = j + 1;
                },
                None => {
                    return None;
                },
            },
            None => {
                return None;
            },
        }
    }
    Some((acc, j))
}

/// The field keys and discriminant values of the grammar need no
/// escaping inside a JSON string.
proof fn lemma_keys_plain()
    ensures
        plain("name"@),
        plain("rfid"@),
        plain("descriptions"@),
        plain("response_type"@),
        plain("get_pass_descs"@),
        plain("detected_rfid"@),
        plain("send_new_card"@),
{
    reveal_strlit("name");
    reveal_strlit("rfid");
    reveal_strlit("descriptions");
    reveal_strlit("response_type");
    reveal_strlit("get_pass_descs");
    reveal_strlit("detected_rfid");
    reveal_strlit("send_new_card");
}

/// Consume one credential description object.
fn scan_card(s: &str, n: usize, i: usize) -> (r: Option<(PasswordLessCard, usize)>)
    requires
        n == s@.len(),
        i <= n,
    ensures
        match r {
            Some((card, j)) => i < j <= n && parse_card(s@.skip(i as int)) == Some(
                (card@, s@.skip(j as int)),
            ),
            None => parse_card(s@.skip(i as int)) is None,
        },
{
    proof {
        lemma_keys_plain();
    }
    let j0 = scan_ws(s, n, i);
    let j1 = match scan_char(s, n, j0, '{') {
        Some(j) => j,
        None => {
            return None;
        },
    };
    let j2 = scan_ws(s, n, j1);
    let j3 = match scan_quoted_lit(s, n, j2, "name") {
        Some(j) => j,
        None => {
            return None;
        },
    };
    let j4 = scan_ws(s, n, j3);
    let j5 = match scan_char(s, n, j4, ':') {
        Some(j) => j,
        None => {
            return None;
        },
    };
    let j6 = scan_ws(s, n, j5);
    let (name, j7) = match scan_string(s, n, j6) {
        Some(p) => p,
        None => {
            return None;
        },
    };
    let j8 = scan_ws(s, n, j7);
    let j9 = match scan_char(s, n, j8, ',') {
        Some(j) => j,
        None => {
            return None;
        },
    };
    let j10 = scan_ws(s, n, j9);
    let j11 = match scan_quoted_lit(s, n, j10, "rfid") {
        Some(j) => j,
        None => {
            return None;
        },
    };
    let j12 = scan_ws(s, n, j11);
    let j13 = match scan_char(s, n, j12, ':') {
        Some(j) => j,
        None => {
            return None;
        },
    };
    let j14 = scan_ws(s, n, j13);
    let (rfid, j15) = match scan_u64(s, n, j14) {
        Some(p) => p,
        None => {
            return None;
        },
    };
    let j16 = scan_ws(s, n, j15);
    let j17 = match scan_char(s, n, j16, '}') {
        Some(j) => j,
        None => {
            return None;
        },
    };
    Some((PasswordLessCard { name, rfid }, j17))
}

/// Consume a bracketed description list.
fn scan_cards(s: &str, n: usize, i: usize) -> (r: Option<(Vec<PasswordLessCard>, usize)>)
    requires
        n == s@.len(),
        i <= n,
    ensures
        match r {
            Some((cards, j)) => i < j <= n && parse_cards(s@.skip(i as int)) == Some(
                (cards.deep_view(), s@.skip(j as int)),
            ),
            None => parse_cards(s@.skip(i as int)) is None,
        },
{
    let j0 = scan_ws(s, n, i);
    let j1 = match scan_char(s, n, j0, '[') {
        Some(j) => j,
        None => {
            return None;
        },
    };
    let j2 = scan_ws(s, n, j1);
    let mut cards: Vec<PasswordLessCard> = Vec::new();
    match scan_char(s, n, j2, ']') {
        Some(j3) => {
            proof {
                assert(cards.deep_view() =~= Seq::<CardV>::empty());
            }
            return Some((cards, j3));
        },
        None => {},
    }
    let (c0, first_j) = match scan_card(s, n, j1) {
        Some(p) => p,
        None => {
            return None;
        },
    };
    let ghost dv0 = cards.deep_view();
    cards.push(c0);
    proof {
        assert(cards.deep_view() =~= dv0 + seq![c0@]);
        assert(forall|cs: Seq<CardV>| (dv0 + seq![c0@]) + cs =~= seq![c0@] + cs);
    }
    let mut j = first_j;
    loop
        invariant
            n == s@.len(),
            i < j <= n,
            match parse_cards_more(s@.skip(j as int)) {
                Some((cs, rest)) => parse_cards(s@.skip(i as int)) == Some::<
                    (Seq<CardV>, Seq<char>),
                >((cards.deep_view() + cs, rest)),
                None => parse_cards(s@.skip(i as int)) is None,
            },
        decreases n - j,
    {
        let j2 = scan_ws(s, n, j);
        match scan_char(s, n, j2, ']') {
            Some(j3) => {
                proof {
                    assert(cards.deep_view() + Seq::<CardV>::empty() =~= cards.deep_view());
                }
                return Some((cards, j3));
            },
            None => {},
        }
        let j4 = match scan_char(s, n, j2, ',') {
            Some(jj) => jj,
            None => {
                return None;
            },
        };
        let (c, j5) = match scan_card(s, n, j4) {
            Some(p) => p,
            None => {
                return None;
            },
        };
        let ghost dv = cards.deep_view();
        cards.push(c);
        proof {
            assert(cards.deep_view() =~= dv + seq![c@]);
            assert(forall|cs: Seq<CardV>| dv + (seq![c@] + cs) =~= (dv + seq![c@]) + cs);
        }
        j = j5;
    }
}

/// Consume one response frame.
fn scan_response(s: &str, n: usize, i: usize) -> (r: Option<(DongleResponse, usize)>)
    requires
        n == s@.len(),
        i <= n,
    ensures
        match r {
            Some((resp, j)) => i < j <= n && parse_response_frame(s@.skip(i as int)) == Some(
                (resp@, s@.skip(j as int)),
            ),
            None => parse_response_frame(s@.skip(i as int)) is None,
        },
{
    proof {
        lemma_keys_plain();
    }
    let j0 = scan_ws(s, n, i);
    let j1 = match scan_char(s, n, j0, '{') {
        Some(j) => j,
        None => {
            return None;
        },
    };
    let j2 = scan_ws(s, n, j1);
    let j3 = match scan_quoted_lit(s, n, j2, "response_type") {
        Some(j) => j,
        None => {
            return None;
        },
    };
    let j4 = scan_ws(s, n, j3);
    let j5 = match scan_char(s, n, j4, ':') {
        Some(j) => j,
        None => {
            return None;
        },
    };
    let j6 = scan_ws(s, n, j5);
    match scan_quoted_lit(s, n, j6, "get_pass_descs") {
        Some(j7) => {
            let j8 = scan_ws(s, n, j7);
            let j9 = match scan_char(s, n, j8, ',') {
                Some(j) => j,
                None => {
                    return None;
                },
            };
            let j10 = scan_ws(s, n, j9);
            let j11 = match scan_quoted_lit(s, n, j10, "descriptions") {
                Some(j) => j,
                None => {
                    return None;
                },
            };
            let j12 = scan_ws(s, n, j11);
            let j13 = match scan_char(s, n, j12, ':') {
                Some(j) => j,
                None => {
                    return None;
                },
            };
            let (cards, j14) = match scan_cards(s, n, j13) {
                Some(p) => p,
                None => {
                    return None;
                },
            };
            let j15 = scan_ws(s, n, j14);
            let j16 = match scan_char(s, n, j15, '}') {
                Some(j) => j,
                None => {
                    return None;
                },
            };
            Some(
                (
                    DongleResponse::SendPasswordDescriptions(
                        PasswordDescriptions { descriptions: cards },
                    ),
                    j16,
                ),
            )
        },
        None => match scan_quoted_lit(s, n, j6, "detected_rfid") {
            Some(j7) => {
                let j8 = scan_ws(s, n, j7);
                let j9 = match scan_char(s, n, j8, ',') {
                    Some(j) => j,
                    None => {
                        return None;
                    },
                };
                let j10 = scan_ws(s, n, j9);
                let j11 = match scan_quoted_lit(s, n, j10, "rfid") {
                    Some(j) => j,
                    None => {
                        return None;
                    },
                };
                let j12 = scan_ws(s, n, j11);
                let j13 = match scan_char(s, n, j12, ':') {
                    Some(j) => j,
                    None => {
                        return None;
                    },
                };
                let j14 = scan_ws(s, n, j13);
                let (rfid, j15) = match scan_u64(s, n, j14) {
                    Some(p) => p,
                    None => {
                        return None;
                    },
                };
                let j16 = scan_ws(s, n, j15);
                let j17 = match scan_char(s, n, j16, '}') {
                    Some(j) => j,
                    None => {
                        return None;
                    },
                };
                Some((DongleResponse::RFIDDetected(RFID { rfid }), j17))
            },
            None => match scan_quoted_lit(s, n, j6, "send_new_card") {
                Some(j7) => {
                    let j8 = scan_ws(s, n, j7);
                    let j9 = match scan_char(s, n, j8, '}') {
                        Some(j) => j,
                        None => {
                            return None;
                        },
                    };
                    Some((DongleResponse::ConfirmNewCard, j9))
                },
                None => None,
            },
        },
    }
}

/// Decodes one inbound frame: the response whose grammar the text is,
/// if and only if [`frame_meaning`] gives one — `None` for truncated
/// or trailing text, an unknown discriminant, a missing member, a
/// number beyond `u64`, or an escape that names no character.
pub fn decode_response(s: &str) -> (r: Option<DongleResponse>)
    ensures
        match r {
            Some(resp) => frame_meaning(s@) == Some(resp@),
            None => frame_meaning(s@) is None,
        },
{
    let n = s.unicode_len();
    proof {
        assert(s@.skip(0) =~= s@);
    }
    match scan_response(s, n, 0) {
        Some((resp, j)) => {
            let j2 = scan_ws(s, n, j);
            if j2 == n {
                proof {
                    assert(s@.skip(j2 as int).len() == 0);
                }
                Some(resp)
            } else {
                proof {
                    assert(s@.skip(j2 as int).len() > 0);
                }
                None
            }
        },
        None => None,
    }
}

/// Extending a description list extends its encoding with a comma
/// where one is due.
proof fn lemma_cards_json_snoc(cs: Seq<CardV>, c: CardV)
    ensures
        cards_json(cs + seq![c]) == if cs.len() == 0 {
            card_json(c)
        } else {
            cards_json(cs) + seq![','] + card_json(c)
        },
    decreases cs.len(),
{
    let whole = cs + seq![c];
    if cs.len() == 0 {
        assert(whole =~= seq![c]);
        assert(cards_json(whole) == card_json(c));
    } else {
        lemma_cards_json_snoc(cs.drop_first(), c);
        assert(whole.drop_first() =~= cs.drop_first() + seq![c]);
        if cs.len() == 1 {
            assert(cs.drop_first() =~= Seq::<CardV>::empty());
            assert(cards_json(whole) =~= cards_json(cs) + seq![','] + card_json(c));
        } else {
            assert(cards_json(whole) =~= cards_json(cs) + seq![','] + card_json(c));
        }
    }
}

// ---------------------------------------------------------------------------
// Round trip: the canonical encoding of a response parses back to it
// ---------------------------------------------------------------------------

/// Whitespace skipping does nothing where no whitespace leads.
proof fn lemma_skip_ws_noop(s: Seq<char>)
    requires
        s.len() == 0 || !is_ws(s[0]),
    ensures
        skip_ws(s) == s,
{
}

/// A literal parses off the front of itself.
proof fn lemma_parse_lit_exact(l: Seq<char>, rest: Seq<char>)
    ensures
        parse_lit(l + rest, l) == Some(rest),
{
    assert((l + rest).take(l.len() as int) =~= l);
    assert((l + rest).skip(l.len() as int) =~= rest);
}

/// A character's scalar value is never negative.
proof fn lemma_char_bounds(c: char)
    ensures
        0 <= c as int <= 0x10FFFF,
{
}

/// Hexadecimal digits read back to their value.
proof fn lemma_hex_digit_value(d: int)
    requires
        0 <= d < 16,
    ensures
        hex_value(hex_digit(d)) == Some(d),
{
    if d < 10 {
        assert(hex_digit(d) as int == ('0' as int) + d);
    } else {
        assert(hex_digit(d) as int == ('a' as int) + (d - 10));
    }
}

/// A string body reads back to the characters it encodes.
proof fn lemma_str_body_round(sv: Seq<char>, rest: Seq<char>)
    ensures
        parse_str_body(esc_seq(sv) + (seq!['"'] + rest)) == Some((sv, rest)),
    decreases sv.len(),
{
    let whole = esc_seq(sv) + (seq!['"'] + rest);
    if sv.len() == 0 {
        assert(esc_seq(sv) =~= Seq::<char>::empty());
        assert(whole =~= seq!['"'] + rest);
        assert(whole[0] == '"');
        assert(whole.drop_first() =~= rest);
        assert(sv =~= Seq::<char>::empty());
    } else {
        let c = sv[0];
        let sv1 = sv.drop_first();
        lemma_str_body_round(sv1, rest);
        let tail = esc_seq(sv1) + (seq!['"'] + rest);
        assert(esc_seq(sv) == esc_char(c) + esc_seq(sv1));
        assert(whole =~= esc_char(c) + tail);
        assert(seq![c] + sv1 =~= sv);
        if c == '"' || c == '\\' {
            assert(whole[0] == '\\');
            assert(whole.drop_first() =~= seq![c] + tail);
            assert((seq![c] + tail)[0] == c);
            assert((seq![c] + tail).drop_first() =~= tail);
            assert(parse_escape(whole.drop_first()) == Some((c, tail)));
            assert(tail.len() < whole.len());
        } else if (c as int) < 0x20 {
            lemma_char_bounds(c);
            let h1 = hex_digit((c as int) / 16);
            let h2 = hex_digit((c as int) % 16);
            assert(whole[0] == '\\');
            let e = whole.drop_first();
            assert(e =~= seq!['u', '0', '0', h1, h2] + tail);
            assert(e[0] == 'u');
            assert(e.len() >= 5);
            assert(e[1] == '0' && e[2] == '0' && e[3] == h1 && e[4] == h2);
            lemma_hex_digit_value((c as int) / 16);
            lemma_hex_digit_value((c as int) % 16);
            assert(hex_value('0') == Some(0int));
            let v: int = 0 * 0x1000 + 0 * 0x100 + ((c as int) / 16) * 0x10 + ((c as int) % 16);
            assert(v == c as int);
            assert(is_scalar_value(v));
            assert((v as char) == c);
            assert(e.skip(5) =~= tail);
            assert(parse_escape(e) == Some((c, tail)));
            assert(tail.len() < whole.len());
        } else {
            assert(esc_char(c) =~= seq![c]);
            assert(whole[0] == c);
            assert(whole.drop_first() =~= tail);
        }
    }
}

/// A quoted string reads back to the characters it encodes.
proof fn lemma_string_round(sv: Seq<char>, rest: Seq<char>)
    ensures
        parse_string(quoted(sv) + rest) == Some((sv, rest)),
{
    let whole = quoted(sv) + rest;
    assert(whole[0] == '"');
    assert(whole.drop_first() =~= esc_seq(sv) + (seq!['"'] + rest));
    lemma_str_body_round(sv, rest);
}

/// Powers of ten.
spec fn pow10(k: nat) -> nat
    decreases k,
{
    if k == 0 {
        1
    } else {
        10 * pow10((k - 1) as nat)
    }
}

/// A sequence of decimal digit characters.
spec fn all_digits(ds: Seq<char>) -> bool {
    forall|k: int| 0 <= k < ds.len() ==> is_digit(ds[k])
}

/// The number a digit sequence denotes.
spec fn digits_val(ds: Seq<char>) -> int
    decreases ds.len(),
{
    if ds.len() == 0 {
        0
    } else {
        digits_val(ds.drop_last()) * 10 + (ds.last() as int - ('0' as int))
    }
}

proof fn lemma_pow10_pos(k: nat)
    ensures
        pow10(k) >= 1,
    decreases k,
{
    if k > 0 {
        lemma_pow10_pos((k - 1) as nat);
    }
}

proof fn lemma_digits_val_nonneg(ds: Seq<char>)
    requires
        all_digits(ds),
    ensures
        digits_val(ds) >= 0,
    decreases ds.len(),
{
    if ds.len() > 0 {
        assert(all_digits(ds.drop_last())) by {
            assert(forall|k: int|
                0 <= k < ds.drop_last().len() ==> ds.drop_last()[k] == ds[k]);
        }
        lemma_digits_val_nonneg(ds.drop_last());
        assert(is_digit(ds.last()));
    }
}

/// Peeling the leading digit off a digit sequence.
proof fn lemma_digits_val_cons(ds: Seq<char>)
    requires
        ds.len() > 0,
    ensures
        digits_val(ds) == (ds[0] as int - ('0' as int)) * pow10((ds.len() - 1) as nat)
            + digits_val(ds.drop_first()),
    decreases ds.len(),
{
    if ds.len() == 1 {
        assert(ds.drop_first() =~= Seq::<char>::empty());
        assert(ds.drop_last() =~= Seq::<char>::empty());
        assert(digits_val(Seq::<char>::empty()) == 0);
        assert(ds.last() == ds[0]);
        assert(pow10(0) == 1);
        assert(digits_val(ds) == 0 * 10 + (ds[0] as int - ('0' as int)));
        assert((ds[0] as int - ('0' as int)) * pow10((ds.len() - 1) as nat) == ds[0] as int - (
        '0' as int)) by (nonlinear_arith)
            requires
                pow10((ds.len() - 1) as nat) == 1,
        ;
    } else {
        let front = ds.drop_last();
        lemma_digits_val_cons(front);
        assert(front[0] == ds[0]);
        assert(front.drop_first() =~= ds.drop_first().drop_last());
        assert(ds.drop_first().last() == ds.last());
        let d0 = ds[0] as int - ('0' as int);
        let m1 = (ds.len() - 2) as nat;
        let x = digits_val(ds.drop_first().drop_last());
        let lv = ds.last() as int - ('0' as int);
        assert(digits_val(front) == d0 * pow10(m1) + x);
        assert(digits_val(ds) == digits_val(front) * 10 + lv);
        assert(digits_val(ds.drop_first()) == x * 10 + lv);
        assert(pow10((ds.len() - 1) as nat) == 10 * pow10(m1));
        assert((d0 * pow10(m1) + x) * 10 == d0 * (10 * pow10(m1)) + x * 10) by (nonlinear_arith);
        assert(digits_val(ds) == d0 * (10 * pow10(m1)) + (x * 10 + lv));
        assert(digits_val(ds) == d0 * pow10((ds.len() - 1) as nat) + digits_val(ds.drop_first()));
    }
}

/// The canonical digits of a number denote it.
proof fn lemma_dec_digits(n: nat)
    ensures
        all_digits(dec_digits(n)),
        dec_digits(n).len() >= 1,
        digits_val(dec_digits(n)) == n,
    decreases n,
{
    if n < 10 {
        let ds = dec_digits(n);
        assert(ds =~= seq![hex_digit(n as int)]);
        assert(hex_digit(n as int) as int == ('0' as int) + n);
        assert(ds.drop_last() =~= Seq::<char>::empty());
        assert(digits_val(Seq::<char>::empty()) == 0);
        assert(ds.last() == hex_digit(n as int));
        assert(digits_val(ds) == 0 * 10 + (ds.last() as int - ('0' as int)));
    } else {
        lemma_dec_digits(n / 10);
        let ds = dec_digits(n);
        assert(ds == dec_digits(n / 10) + seq![hex_digit((n % 10) as int)]);
        assert(ds.drop_last() =~= dec_digits(n / 10));
        assert(ds.last() == hex_digit((n % 10) as int));
        assert(hex_digit((n % 10) as int) as int == ('0' as int) + (n % 10) as int);
        assert(digits_val(ds) == digits_val(ds.drop_last()) * 10 + (ds.last() as int - (
        '0' as int)));
        assert(digits_val(ds.drop_last()) == n / 10);
        assert(digits_val(ds) == (n / 10) * 10 + n % 10);
        assert((n / 10) * 10 + n % 10 == n);
        assert forall|k: int| 0 <= k < ds.len() implies is_digit(ds[k]) by {
            if k < ds.len() - 1 {
                assert(ds[k] == dec_digits(n / 10)[k]);
                assert(is_digit(dec_digits(n / 10)[k]));
            } else {
                assert(ds[k] == ds.last());
            }
        }
    }
}

/// The number loop folds canonical digits back to the value.
proof fn lemma_u64_loop_round(ds: Seq<char>, rest: Seq<char>, acc: u64)
    requires
        all_digits(ds),
        rest.len() == 0 || !is_digit(rest[0]),
        (acc as int) * pow10(ds.len() as nat) + digits_val(ds) <= u64::MAX as int,
    ensures
        parse_u64_loop(ds + rest, acc) == Some(
            ((((acc as int) * pow10(ds.len() as nat) + digits_val(ds)) as u64), rest),
        ),
    decreases ds.len(),
{
    let whole = ds + rest;
    if ds.len() == 0 {
        assert(whole =~= rest);
        assert(digits_val(ds) == 0);
        assert(pow10(0) == 1);
        assert(parse_u64_loop(rest, acc) == Some((acc, rest))) by {
            reveal_with_fuel(parse_u64_loop, 2);
        }
        assert((acc as int) * pow10(ds.len() as nat) + digits_val(ds) == acc as int) by (
        nonlinear_arith)
            requires
                pow10(ds.len() as nat) == 1,
                digits_val(ds) == 0,
        ;
        assert(((acc as int) * pow10(ds.len() as nat) + digits_val(ds)) as u64 == acc);
    } else {
        assert(whole[0] == ds[0]);
        assert(is_digit(ds[0]));
        let d = ds[0] as int - ('0' as int);
        let m1 = (ds.len() - 1) as nat;
        lemma_digits_val_cons(ds);
        assert(all_digits(ds.drop_first())) by {
            assert(forall|k: int|
                0 <= k < ds.drop_first().len() ==> ds.drop_first()[k] == ds[k + 1]);
        }
        lemma_digits_val_nonneg(ds.drop_first());
        lemma_pow10_pos(m1);
        assert(pow10(ds.len() as nat) == 10 * pow10(m1));
        let accn = (acc as int) * 10 + d;
        assert(accn * pow10(m1) + digits_val(ds.drop_first()) == (acc as int) * pow10(
            ds.len() as nat,
        ) + digits_val(ds)) by (nonlinear_arith)
            requires
                pow10(ds.len() as nat) == 10 * pow10(m1),
                accn == (acc as int) * 10 + d,
                digits_val(ds) == d * pow10(m1) + digits_val(ds.drop_first()),
        ;
        assert(accn <= accn * pow10(m1)) by (nonlinear_arith)
            requires
                pow10(m1) >= 1,
                accn >= 0,
        ;
        assert(accn + digits_val(ds.drop_first()) <= u64::MAX as int);
        assert(whole.drop_first() =~= ds.drop_first() + rest);
        lemma_u64_loop_round(ds.drop_first(), rest, accn as u64);
    }
}

/// The canonical digits of a number, followed by anything that is not
/// a digit, read back to the number.
proof fn lemma_u64_round(v: u64, rest: Seq<char>)
    requires
        rest.len() == 0 || !is_digit(rest[0]),
    ensures
        parse_u64(dec_digits(v as nat) + rest) == Some((v, rest)),
{
    let ds = dec_digits(v as nat);
    lemma_dec_digits(v as nat);
    lemma_u64_loop_round(ds, rest, 0);
    assert((ds + rest)[0] == ds[0]);
    assert(pow10(ds.len() as nat) >= 1) by {
        lemma_pow10_pos(ds.len() as nat);
    }
}

/// One credential description reads back to itself.
#[verifier::rlimit(100)]
proof fn lemma_card_round(c: CardV, rest: Seq<char>)
    ensures
        parse_card(card_json(c) + rest) == Some((c, rest)),
{
    let u8r = seq!['}'] + rest;
    let u7 = dec_digits(c.rfid as nat) + u8r;
    let u6 = seq![':'] + u7;
    let u5 = quoted("rfid"@) + u6;
    let u4 = seq![','] + u5;
    let u3 = quoted(c.name) + u4;
    let u2 = seq![':'] + u3;
    let u1 = quoted("name"@) + u2;
    let whole = card_json(c) + rest;
    assert(whole =~= seq!['{'] + u1);
    assert(whole[0] == '{');
    lemma_skip_ws_noop(whole);
    lemma_parse_lit_exact(seq!['{'], u1);
    assert(quoted("name"@)[0] == '"');
    assert(u1[0] == '"');
    lemma_skip_ws_noop(u1);
    lemma_parse_lit_exact(quoted("name"@), u2);
    assert(u2[0] == ':');
    lemma_skip_ws_noop(u2);
    lemma_parse_lit_exact(seq![':'], u3);
    assert(quoted(c.name)[0] == '"');
    assert(u3[0] == '"');
    lemma_skip_ws_noop(u3);
    lemma_string_round(c.name, u4);
    assert(u4[0] == ',');
    lemma_skip_ws_noop(u4);
    lemma_parse_lit_exact(seq![','], u5);
    assert(quoted("rfid"@)[0] == '"');
    assert(u5[0] == '"');
    lemma_skip_ws_noop(u5);
    lemma_parse_lit_exact(quoted("rfid"@), u6);
    assert(u6[0] == ':');
    lemma_skip_ws_noop(u6);
    lemma_parse_lit_exact(seq![':'], u7);
    lemma_dec_digits(c.rfid as nat);
    assert(u7[0] == dec_digits(c.rfid as nat)[0]);
    assert(is_digit(u7[0]));
    assert(!is_ws(u7[0]));
    lemma_skip_ws_noop(u7);
    assert(u8r[0] == '}');
    assert(!is_digit('}'));
    lemma_u64_round(c.rfid, u8r);
    lemma_skip_ws_noop(u8r);
    lemma_parse_lit_exact(seq!['}'], rest);
    assert(parse_lit(skip_ws(whole), seq!['{']) == Some(u1));
    assert(parse_lit(skip_ws(u1), quoted("name"@)) == Some(u2));
    assert(parse_lit(skip_ws(u2), seq![':']) == Some(u3));
    assert(parse_string(skip_ws(u3)) == Some((c.name, u4)));
    assert(parse_lit(skip_ws(u4), seq![',']) == Some(u5));
    assert(parse_lit(skip_ws(u5), quoted("rfid"@)) == Some(u6));
    assert(parse_lit(skip_ws(u6), seq![':']) == Some(u7));
    assert(parse_u64(skip_ws(u7)) == Some((c.rfid, u8r)));
    assert(parse_lit(skip_ws(u8r), seq!['}']) == Some(rest));
    assert(parse_card(whole) == Some((CardV { name: c.name, rfid: c.rfid }, rest)));
    assert(CardV { name: c.name, rfid: c.rfid } == c);
}

/// The members of a description list after the first: each further
/// description preceded by a comma.
spec fn sep_json(cs: Seq<CardV>) -> Seq<char>
    decreases cs.len(),
{
    if cs.len() == 0 {
        Seq::empty()
    } else {
        seq![','] + card_json(cs[0]) + sep_json(cs.drop_first())
    }
}

/// A nonempty description list is its first member and the rest in
/// separated form.
proof fn lemma_cards_json_split(cs: Seq<CardV>)
    requires
        cs.len() > 0,
    ensures
        cards_json(cs) == card_json(cs[0]) + sep_json(cs.drop_first()),
    decreases cs.len(),
{
    if cs.len() == 1 {
        assert(cs.drop_first() =~= Seq::<CardV>::empty());
        assert(cards_json(cs) =~= card_json(cs[0]) + sep_json(cs.drop_first()));
    } else {
        let cs1 = cs.drop_first();
        lemma_cards_json_split(cs1);
        assert(cards_json(cs) == card_json(cs[0]) + seq![','] + cards_json(cs1));
        assert(sep_json(cs1) == seq![','] + card_json(cs1[0]) + sep_json(cs1.drop_first()));
        assert(cards_json(cs) =~= card_json(cs[0]) + sep_json(cs1));
    }
}

/// The separated members, then the closing bracket, read back to the
/// descriptions they encode.
#[verifier::rlimit(100)]
proof fn lemma_cards_more_round(cs: Seq<CardV>, rest: Seq<char>)
    ensures
        parse_cards_more(sep_json(cs) + (seq![']'] + rest)) == Some((cs, rest)),
    decreases cs.len(),
{
    let whole = sep_json(cs) + (seq![']'] + rest);
    if cs.len() == 0 {
        assert(whole =~= seq![']'] + rest);
        assert(whole[0] == ']');
        lemma_skip_ws_noop(whole);
        lemma_parse_lit_exact(seq![']'], rest);
        assert(cs =~= Seq::<CardV>::empty());
    } else {
        let cs1 = cs.drop_first();
        let v = sep_json(cs1) + (seq![']'] + rest);
        let u = card_json(cs[0]) + v;
        assert(whole =~= seq![','] + u);
        assert(whole[0] == ',');
        lemma_skip_ws_noop(whole);
        assert(parse_lit(whole, seq![']']) is None) by {
            if 1 <= whole.len() && whole.take(1) == seq![']'] {
                assert(whole.take(1)[0] == whole[0]);
            }
        }
        lemma_parse_lit_exact(seq![','], u);
        lemma_card_round(cs[0], v);
        assert(card_json(cs[0])[0] == '{');
        assert(card_json(cs[0]).len() >= 1);
        assert(v.len() < whole.len());
        lemma_cards_more_round(cs1, rest);
        assert(seq![cs[0]] + cs1 =~= cs);
    }
}

/// A bracketed description list reads back to the descriptions it
/// encodes.
#[verifier::rlimit(100)]
proof fn lemma_cards_round(cs: Seq<CardV>, rest: Seq<char>)
    ensures
        parse_cards(seq!['['] + (cards_json(cs) + (seq![']'] + rest))) == Some((cs, rest)),
{
    let s1 = cards_json(cs) + (seq![']'] + rest);
    let whole = seq!['['] + s1;
    assert(whole[0] == '[');
    lemma_skip_ws_noop(whole);
    lemma_parse_lit_exact(seq!['['], s1);
    if cs.len() == 0 {
        assert(s1 =~= seq![']'] + rest);
        assert(s1[0] == ']');
        lemma_skip_ws_noop(s1);
        lemma_parse_lit_exact(seq![']'], rest);
        assert(cs =~= Seq::<CardV>::empty());
    } else {
        lemma_cards_json_split(cs);
        let v = sep_json(cs.drop_first()) + (seq![']'] + rest);
        assert(s1 =~= card_json(cs[0]) + v);
        assert(card_json(cs[0])[0] == '{');
        assert(s1[0] == '{');
        lemma_skip_ws_noop(s1);
        assert(parse_lit(s1, seq![']']) is None) by {
            if 1 <= s1.len() && s1.take(1) == seq![']'] {
                assert(s1.take(1)[0] == s1[0]);
            }
        }
        lemma_card_round(cs[0], v);
        assert(v.len() < whole.len());
        lemma_cards_more_round(cs.drop_first(), rest);
        assert(seq![cs[0]] + cs.drop_first() =~= cs);
    }
}

/// The discriminant values of the three response kinds differ pairwise
/// in their first character.
proof fn lemma_tags_differ()
    ensures
        "get_pass_descs"@[0] == 'g',
        "detected_rfid"@[0] == 'd',
        "send_new_card"@[0] == 's',
        "get_pass_descs"@.len() == 14,
        "detected_rfid"@.len() == 13,
        "send_new_card"@.len() == 13,
{
    reveal_strlit("get_pass_descs");
    reveal_strlit("detected_rfid");
    reveal_strlit("send_new_card");
}

/// A quoted tag at the front of the input refuses a quoted literal
/// with a different first character.
proof fn lemma_tag_mismatch(tag: Seq<char>, other: Seq<char>, w: Seq<char>)
    requires
        plain(tag),
        plain(other),
        tag.len() > 0,
        other.len() > 0,
        tag[0] != other[0],
    ensures
        parse_lit(quoted(tag) + w, quoted(other)) is None,
{
    lemma_plain_esc(tag);
    lemma_plain_esc(other);
    let s = quoted(tag) + w;
    let l = quoted(other);
    assert(s[1] == tag[0]);
    assert(l[1] == other[0]);
    if l.len() <= s.len() && s.take(l.len() as int) == l {
        assert(s.take(l.len() as int)[1] == s[1]);
    }
}

/// The opening of a response frame: brace, discriminant key, colon.
/// Consuming it leaves the input after the colon.
proof fn lemma_frame_open(t2: Seq<char>)
    ensures
        ({
            let t1 = seq![':'] + t2;
            let t0 = quoted("response_type"@) + t1;
            let whole = seq!['{'] + t0;
            &&& skip_ws(whole) == whole
            &&& parse_lit(whole, seq!['{']) == Some(t0)
            &&& skip_ws(t0) == t0
            &&& parse_lit(t0, quoted("response_type"@)) == Some(t1)
            &&& skip_ws(t1) == t1
            &&& parse_lit(t1, seq![':']) == Some(t2)
        }),
{
    let t1 = seq![':'] + t2;
    let t0 = quoted("response_type"@) + t1;
    let whole = seq!['{'] + t0;
    assert(whole[0] == '{');
    lemma_skip_ws_noop(whole);
    lemma_parse_lit_exact(seq!['{'], t0);
    assert(quoted("response_type"@)[0] == '"');
    assert(t0[0] == '"');
    lemma_skip_ws_noop(t0);
    lemma_parse_lit_exact(quoted("response_type"@), t1);
    assert(t1[0] == ':');
    lemma_skip_ws_noop(t1);
    lemma_parse_lit_exact(seq![':'], t2);
}

/// Round trip for a descriptions frame.
#[verifier::rlimit(100)]
proof fn lemma_round_descriptions(cs: Seq<CardV>)
    ensures
        frame_meaning(response_json(ResponseV::Descriptions(cs))) == Some(
            ResponseV::Descriptions(cs),
        ),
{
    lemma_keys_plain();
    let whole = response_json(ResponseV::Descriptions(cs));
    let empty = Seq::<char>::empty();
    let t8 = seq!['}'] + empty;
    let t6 = seq!['['] + (cards_json(cs) + (seq![']'] + t8));
    let t5 = seq![':'] + t6;
    let t4 = quoted("descriptions"@) + t5;
    let t3 = seq![','] + t4;
    let t2 = quoted("get_pass_descs"@) + t3;
    let t1 = seq![':'] + t2;
    let t0 = quoted("response_type"@) + t1;
    assert(whole =~= seq!['{'] + t0);
    lemma_frame_open(t2);
    assert(quoted("get_pass_descs"@)[0] == '"');
    assert(t2[0] == '"');
    lemma_skip_ws_noop(t2);
    lemma_parse_lit_exact(quoted("get_pass_descs"@), t3);
    assert(t3[0] == ',');
    lemma_skip_ws_noop(t3);
    lemma_parse_lit_exact(seq![','], t4);
    assert(quoted("descriptions"@)[0] == '"');
    assert(t4[0] == '"');
    lemma_skip_ws_noop(t4);
    lemma_parse_lit_exact(quoted("descriptions"@), t5);
    assert(t5[0] == ':');
    lemma_skip_ws_noop(t5);
    lemma_parse_lit_exact(seq![':'], t6);
    lemma_cards_round(cs, t8);
    assert(parse_cards(t6) == Some((cs, t8)));
    assert(t8[0] == '}');
    lemma_skip_ws_noop(t8);
    lemma_parse_lit_exact(seq!['}'], empty);
    lemma_skip_ws_noop(empty);
    assert(parse_descriptions_rest(t3) == Some((ResponseV::Descriptions(cs), empty)));
    assert(parse_response_frame(whole) == Some((ResponseV::Descriptions(cs), empty)));
}

/// Round trip for a tag detection frame.
#[verifier::rlimit(100)]
proof fn lemma_round_rfid(nv: u64)
    ensures
        frame_meaning(response_json(ResponseV::Rfid(nv))) == Some(ResponseV::Rfid(nv)),
{
    lemma_keys_plain();
    lemma_tags_differ();
    let whole = response_json(ResponseV::Rfid(nv));
    let empty = Seq::<char>::empty();
    let t8 = seq!['}'] + empty;
    let t7 = dec_digits(nv as nat) + t8;
    let t6 = seq![':'] + t7;
    let t5 = quoted("rfid"@) + t6;
    let t4 = seq![','] + t5;
    let t2 = quoted("detected_rfid"@) + t4;
    let t1 = seq![':'] + t2;
    let t0 = quoted("response_type"@) + t1;
    assert(whole =~= seq!['{'] + t0);
    lemma_frame_open(t2);
    assert(quoted("detected_rfid"@)[0] == '"');
    assert(t2[0] == '"');
    lemma_skip_ws_noop(t2);
    lemma_tag_mismatch("detected_rfid"@, "get_pass_descs"@, t4);
    lemma_parse_lit_exact(quoted("detected_rfid"@), t4);
    assert(t4[0] == ',');
    lemma_skip_ws_noop(t4);
    lemma_parse_lit_exact(seq![','], t5);
    assert(quoted("rfid"@)[0] == '"');
    assert(t5[0] == '"');
    lemma_skip_ws_noop(t5);
    lemma_parse_lit_exact(quoted("rfid"@), t6);
    assert(t6[0] == ':');
    lemma_skip_ws_noop(t6);
    lemma_parse_lit_exact(seq![':'], t7);
    lemma_dec_digits(nv as nat);
    assert(t7[0] == dec_digits(nv as nat)[0]);
    assert(is_digit(t7[0]));
    assert(!is_ws(t7[0]));
    lemma_skip_ws_noop(t7);
    assert(t8[0] == '}');
    assert(!is_digit('}'));
    lemma_u64_round(nv, t8);
    lemma_skip_ws_noop(t8);
    lemma_parse_lit_exact(seq!['}'], empty);
    lemma_skip_ws_noop(empty);
    assert(parse_rfid_rest(t4) == Some((ResponseV::Rfid(nv), empty)));
    assert(parse_response_frame(whole) == Some((ResponseV::Rfid(nv), empty)));
}

/// Round trip for a provisioning confirmation frame.
#[verifier::rlimit(100)]
proof fn lemma_round_confirm()
    ensures
        frame_meaning(response_json(ResponseV::ConfirmNewCard)) == Some(
            ResponseV::ConfirmNewCard,
        ),
{
    lemma_keys_plain();
    lemma_tags_differ();
    let whole = response_json(ResponseV::ConfirmNewCard);
    let empty = Seq::<char>::empty();
    let t8 = seq!['}'] + empty;
    let t2 = quoted("send_new_card"@) + t8;
    let t1 = seq![':'] + t2;
    let t0 = quoted("response_type"@) + t1;
    assert(whole =~= seq!['{'] + t0);
    lemma_frame_open(t2);
    assert(quoted("send_new_card"@)[0] == '"');
    assert(t2[0] == '"');
    lemma_skip_ws_noop(t2);
    lemma_tag_mismatch("send_new_card"@, "get_pass_descs"@, t8);
    lemma_tag_mismatch("send_new_card"@, "detected_rfid"@, t8);
    lemma_parse_lit_exact(quoted("send_new_card"@), t8);
    assert(t8[0] == '}');
    lemma_skip_ws_noop(t8);
    lemma_parse_lit_exact(seq!['}'], empty);
    lemma_skip_ws_noop(empty);
    assert(parse_confirm_rest(t8) == Some((ResponseV::ConfirmNewCard, empty)));
    assert(parse_response_frame(whole) == Some((ResponseV::ConfirmNewCard, empty)));
}

/// Round trip: the canonical frame of any response decodes back to
/// that response. With [`encode_response`] and [`decode_response`]
/// proved against the same grammar, a frame the dongle mirrors for a
/// request is read back as the matching response value.
pub proof fn lemma_response_round_trip(r: ResponseV)
    ensures
        frame_meaning(response_json(r)) == Some(r),
{
    match r {
        ResponseV::Descriptions(cs) => lemma_round_descriptions(cs),
        ResponseV::Rfid(nv) => lemma_round_rfid(nv),
        ResponseV::ConfirmNewCard => lemma_round_confirm(),
    }
}

} // verus!
