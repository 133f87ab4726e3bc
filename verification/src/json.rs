//! The JSON codec for the three persisted records.
//!
//! Encoding is canonical: fields in declaration order, no whitespace,
//! strings escaped exactly as the records travel on the wire (quote,
//! backslash and the short control escapes by name, any other control
//! character as `\u00XX` with lowercase hex).  Decoding accepts the
//! fields in any order with arbitrary whitespace between tokens,
//! rejects unknown and duplicated fields, and accepts `\uXXXX` escapes
//! for control code points — the only ones the encoder emits.  A
//! decode failure is the recoverable `IntentParse` error.

use vstd::prelude::*;
use vstd::string::StringExecFns;
use crate::errors::ZfsError;
use crate::records::{DownloadDigest, FragmentationDigest, UploadDigest};
use crate::strnum::{
    dec_digits, dec_value, is_digit, lemma_scan_digits, parse_dec_run, push_char,
    spec_scan_digits, str_chars,
};

verus! {

/// The lowercase hexadecimal digit for a value below 16.
pub open spec fn hex_digit(d: nat) -> char {
    if d == 0 {
        '0'
    } else if d == 1 {
        '1'
    } else if d == 2 {
        '2'
    } else if d == 3 {
        '3'
    } else if d == 4 {
        '4'
    } else if d == 5 {
        '5'
    } else if d == 6 {
        '6'
    } else if d == 7 {
        '7'
    } else if d == 8 {
        '8'
    } else if d == 9 {
        '9'
    } else if d == 10 {
        'a'
    } else if d == 11 {
        'b'
    } else if d == 12 {
        'c'
    } else if d == 13 {
        'd'
    } else if d == 14 {
        'e'
    } else {
        'f'
    }
}

/// How one character is written inside a JSON string.
pub open spec fn esc_char(c: char) -> Seq<char> {
    if c == '"' {
        seq!['\\', '"']
    } else if c == '\\' {
        seq!['\\', '\\']
    } else if c == '\u{8}' {
        seq!['\\', 'b']
    } else if c == '\u{9}' {
        seq!['\\', 't']
    } else if c == '\u{a}' {
        seq!['\\', 'n']
    } else if c == '\u{c}' {
        seq!['\\', 'f']
    } else if c == '\u{d}' {
        seq!['\\', 'r']
    } else if (c as u32) < 0x20 {
        seq!['\\', 'u', '0', '0', hex_digit((c as u32 / 16) as nat), hex_digit(
            (c as u32 % 16) as nat,
        )]
    } else {
        seq![c]
    }
}

/// The body of a JSON string holding `s`.
pub open spec fn json_escape(s: Seq<char>) -> Seq<char>
    decreases s.len(),
{
    if s.len() == 0 {
        Seq::empty()
    } else {
        esc_char(s[0]) + json_escape(s.drop_first())
    }
}

/// Escaping distributes over appending one character.
pub proof fn lemma_json_escape_push(s: Seq<char>, c: char)
    ensures
        json_escape(s.push(c)) == json_escape(s) + esc_char(c),
    decreases s.len(),
{
    if s.len() == 0 {
        assert(s.push(c)[0] == c);
        assert(s.push(c).drop_first() =~= Seq::<char>::empty());
        assert(json_escape(Seq::<char>::empty()) == Seq::<char>::empty());
        assert(json_escape(s.push(c)) == esc_char(c) + json_escape(Seq::<char>::empty()));
        assert(json_escape(s.push(c)) =~= json_escape(s) + esc_char(c));
    } else {
        lemma_json_escape_push(s.drop_first(), c);
        assert(s.push(c)[0] == s[0]);
        assert(s.push(c).drop_first() =~= s.drop_first().push(c));
        assert(json_escape(s) == esc_char(s[0]) + json_escape(s.drop_first()));
        assert(json_escape(s.push(c)) == esc_char(s[0]) + json_escape(s.drop_first().push(c)));
        assert(json_escape(s.drop_first().push(c)) == json_escape(s.drop_first()) + esc_char(c));
        assert(json_escape(s.push(c)) =~= json_escape(s) + esc_char(c));
    }
}

/// The canonical encoding of an upload intent.
pub open spec fn spec_upload_intent_json(path: Seq<char>, key: Seq<char>, fragment_size: nat) -> Seq<
    char,
> {
    seq!['{', '"', 'p', 'a', 't', 'h', '"', ':', '"'] + json_escape(path) + seq![
        '"',
        ',',
        '"',
        'k',
        'e',
        'y',
        '"',
        ':',
        '"',
    ] + json_escape(key) + seq![
        '"',
        ',',
        '"',
        'f',
        'r',
        'a',
        'g',
        'm',
        'e',
        'n',
        't',
        '_',
        's',
        'i',
        'z',
        'e',
        '"',
        ':',
    ] + dec_digits(fragment_size) + seq!['}']
}

/// The canonical encoding of a download intent.
pub open spec fn spec_download_intent_json(key: Seq<char>, path: Seq<char>, pace: nat) -> Seq<
    char,
> {
    seq!['{', '"', 'k', 'e', 'y', '"', ':', '"'] + json_escape(key) + seq![
        '"',
        ',',
        '"',
        'p',
        'a',
        't',
        'h',
        '"',
        ':',
        '"',
    ] + json_escape(path) + seq!['"', ',', '"', 'p', 'a', 'c', 'e', '"', ':'] + dec_digits(pace)
        + seq!['}']
}

/// The canonical encoding of a fragmentation digest.
pub open spec fn spec_digest_json(
    name: Seq<char>,
    size: nat,
    crc: nat,
    fragment_size: nat,
    fragments: nat,
) -> Seq<char> {
    seq!['{', '"', 'n', 'a', 'm', 'e', '"', ':', '"'] + json_escape(name) + seq![
        '"',
        ',',
        '"',
        's',
        'i',
        'z',
        'e',
        '"',
        ':',
    ] + dec_digits(size) + seq![',', '"', 'c', 'r', 'c', '"', ':'] + dec_digits(crc)
        + seq![
        ',',
        '"',
        'f',
        'r',
        'a',
        'g',
        'm',
        'e',
        'n',
        't',
        '_',
        's',
        'i',
        'z',
        'e',
        '"',
        ':',
    ] + dec_digits(fragment_size) + seq![
        ',',
        '"',
        'f',
        'r',
        'a',
        'g',
        'm',
        'e',
        'n',
        't',
        's',
        '"',
        ':',
    ] + dec_digits(fragments) + seq!['}']
}

/// The lowercase hexadecimal digit string for a value below 16.
fn hex_digit_str(d: u32) -> (r: &'static str)
    requires
        d < 16,
    ensures
        r@ =~= seq![hex_digit(d as nat)],
{
    proof {
        reveal_strlit("0");
        reveal_strlit("1");
        reveal_strlit("2");
        reveal_strlit("3");
        reveal_strlit("4");
        reveal_strlit("5");
        reveal_strlit("6");
        reveal_strlit("7");
        reveal_strlit("8");
        reveal_strlit("9");
        reveal_strlit("a");
        reveal_strlit("b");
        reveal_strlit("c");
        reveal_strlit("d");
        reveal_strlit("e");
        reveal_strlit("f");
    }
    if d == 0 {
        "0"
    } else if d == 1 {
        "1"
    } else if d == 2 {
        "2"
    } else if d == 3 {
        "3"
    } else if d == 4 {
        "4"
    } else if d == 5 {
        "5"
    } else if d == 6 {
        "6"
    } else if d == 7 {
        "7"
    } else if d == 8 {
        "8"
    } else if d == 9 {
        "9"
    } else if d == 10 {
        "a"
    } else if d == 11 {
        "b"
    } else if d == 12 {
        "c"
    } else if d == 13 {
        "d"
    } else if d == 14 {
        "e"
    } else {
        "f"
    }
}

/// Appends the escaped form of `s` to `out`.
fn append_escaped(out: &mut String, s: &str)
    ensures
        final(out)@ == old(out)@ + json_escape(s@),
{
    let chars = str_chars(s);
    let ghost base = old(out)@;
    let mut i: usize = 0;
    proof {
        assert(chars@.take(0) =~= Seq::<char>::empty());
        assert(out@ =~= base + json_escape(chars@.take(0)));
    }
    while i < chars.len()
        invariant
            0 <= i <= chars@.len(),
            chars@ == s@,
            out@ == base + json_escape(chars@.take(i as int)),
        decreases chars@.len() - i,
    {
        let c = chars[i];
        let ghost mid = out@;
        if c == '"' {
            out.append("\\\"");
        } else if c == '\\' {
            out.append("\\\\");
        } else if c == '\u{8}' {
            out.append("\\b");
        } else if c == '\u{9}' {
            out.append("\\t");
        } else if c == '\u{a}' {
            out.append("\\n");
        } else if c == '\u{c}' {
            out.append("\\f");
        } else if c == '\u{d}' {
            out.append("\\r");
        } else if (c as u32) < 0x20 {
            out.append("\\u00");
            let v = c as u32;
            out.append(hex_digit_str(v / 16));
            out.append(hex_digit_str(v % 16));
        } else {
            push_char(out, c);
        }
        proof {
            reveal_strlit("\\\"");
            reveal_strlit("\\\\");
            reveal_strlit("\\b");
            reveal_strlit("\\t");
            reveal_strlit("\\n");
            reveal_strlit("\\f");
            reveal_strlit("\\r");
            reveal_strlit("\\u00");
            assert(out@ =~= mid + esc_char(c));
            lemma_json_escape_push(chars@.take(i as int), c);
            assert(chars@.take(i + 1) =~= chars@.take(i as int).push(c));
            assert(out@ =~= base + json_escape(chars@.take(i + 1)));
        }
        i = i + 1;
    }
    proof {
        assert(chars@.take(chars@.len() as int) =~= chars@);
    }
}

/// Encodes an upload intent canonically.
pub fn encode_upload_intent(d: &UploadDigest) -> (s: String)
    ensures
        s@ == spec_upload_intent_json(d.path@, d.key@, d.fragment_size as nat),
{
    proof {
        reveal_strlit("{\"path\":\"");
        reveal_strlit("\",\"key\":\"");
        reveal_strlit("\",\"fragment_size\":");
        reveal_strlit("}");
        assert("{\"path\":\""@ =~= seq!['{', '"', 'p', 'a', 't', 'h', '"', ':', '"']);
        assert("\",\"key\":\""@ =~= seq!['"', ',', '"', 'k', 'e', 'y', '"', ':', '"']);
        assert("\",\"fragment_size\":"@ =~= seq![
            '"',
            ',',
            '"',
            'f',
            'r',
            'a',
            'g',
            'm',
            'e',
            'n',
            't',
            '_',
            's',
            'i',
            'z',
            'e',
            '"',
            ':',
        ]);
        assert("}"@ =~= seq!['}']);
    }
    let mut s = String::from_str("{\"path\":\"");
    append_escaped(&mut s, d.path.as_str());
    s.append("\",\"key\":\"");
    append_escaped(&mut s, d.key.as_str());
    s.append("\",\"fragment_size\":");
    let num = crate::strnum::u64_to_dec(d.fragment_size as u64);
    s.append(num.as_str());
    s.append("}");
    proof {
        assert(s@ =~= spec_upload_intent_json(d.path@, d.key@, d.fragment_size as nat));
    }
    s
}

/// Encodes a download intent canonically.
pub fn encode_download_intent(d: &DownloadDigest) -> (s: String)
    ensures
        s@ == spec_download_intent_json(d.key@, d.path@, d.pace as nat),
{
    proof {
        reveal_strlit("{\"key\":\"");
        reveal_strlit("\",\"path\":\"");
        reveal_strlit("\",\"pace\":");
        reveal_strlit("}");
        assert("{\"key\":\""@ =~= seq!['{', '"', 'k', 'e', 'y', '"', ':', '"']);
        assert("\",\"path\":\""@ =~= seq!['"', ',', '"', 'p', 'a', 't', 'h', '"', ':', '"']);
        assert("\",\"pace\":"@ =~= seq!['"', ',', '"', 'p', 'a', 'c', 'e', '"', ':']);
        assert("}"@ =~= seq!['}']);
    }
    let mut s = String::from_str("{\"key\":\"");
    append_escaped(&mut s, d.key.as_str());
    s.append("\",\"path\":\"");
    append_escaped(&mut s, d.path.as_str());
    s.append("\",\"pace\":");
    let num = crate::strnum::u64_to_dec(d.pace as u64);
    s.append(num.as_str());
    s.append("}");
    proof {
        assert(s@ =~= spec_download_intent_json(d.key@, d.path@, d.pace as nat));
    }
    s
}

/// Encodes a fragmentation digest canonically.
pub fn encode_fragmentation_digest(d: &FragmentationDigest) -> (s: String)
    ensures
        s@ == spec_digest_json(
            d.name@,
            d.size as nat,
            d.crc as nat,
            d.fragment_size as nat,
            d.fragments as nat,
        ),
{
    proof {
        reveal_strlit("{\"name\":\"");
        reveal_strlit("\",\"size\":");
        reveal_strlit(",\"crc\":");
        reveal_strlit(",\"fragment_size\":");
        reveal_strlit(",\"fragments\":");
        reveal_strlit("}");
        assert("{\"name\":\""@ =~= seq!['{', '"', 'n', 'a', 'm', 'e', '"', ':', '"']);
        assert("\",\"size\":"@ =~= seq!['"', ',', '"', 's', 'i', 'z', 'e', '"', ':']);
        assert(",\"crc\":"@ =~= seq![',', '"', 'c', 'r', 'c', '"', ':']);
        assert(",\"fragment_size\":"@ =~= seq![
            ',',
            '"',
            'f',
            'r',
            'a',
            'g',
            'm',
            'e',
            'n',
            't',
            '_',
            's',
            'i',
            'z',
            'e',
            '"',
            ':',
        ]);
        assert(",\"fragments\":"@ =~= seq![
            ',',
            '"',
            'f',
            'r',
            'a',
            'g',
            'm',
            'e',
            'n',
            't',
            's',
            '"',
            ':',
        ]);
        assert("}"@ =~= seq!['}']);
    }
    let mut s = String::from_str("{\"name\":\"");
    append_escaped(&mut s, d.name.as_str());
    s.append("\",\"size\":");
    let num = crate::strnum::u64_to_dec(d.size);
    s.append(num.as_str());
    s.append(",\"crc\":");
    let num = crate::strnum::u64_to_dec(d.crc);
    s.append(num.as_str());
    s.append(",\"fragment_size\":");
    let num = crate::strnum::u64_to_dec(d.fragment_size as u64);
    s.append(num.as_str());
    s.append(",\"fragments\":");
    let num = crate::strnum::u64_to_dec(d.fragments as u64);
    s.append(num.as_str());
    s.append("}");
    proof {
        assert(s@ =~= spec_digest_json(
            d.name@,
            d.size as nat,
            d.crc as nat,
            d.fragment_size as nat,
            d.fragments as nat,
        ));
    }
    s
}

/// JSON inter-token whitespace.
pub open spec fn is_ws(c: char) -> bool {
    c == ' ' || c == '\t' || c == '\n' || c == '\r'
}

/// The first position at or after `i` holding no whitespace.
pub open spec fn skip_ws(s: Seq<char>, i: int) -> int
    decreases s.len() - i,
{
    if 0 <= i < s.len() && is_ws(s[i]) {
        skip_ws(s, i + 1)
    } else {
        i
    }
}

/// A hexadecimal digit, either case.
pub open spec fn is_hex(c: char) -> bool {
    is_digit(c) || ('a' <= c && c <= 'f') || ('A' <= c && c <= 'F')
}

/// The value of a hexadecimal digit.
pub open spec fn hex_val(c: char) -> nat {
    if is_digit(c) {
        crate::strnum::digit_val(c)
    } else if 'a' <= c && c <= 'f' {
        (c as nat - 'a' as nat + 10) as nat
    } else {
        (c as nat - 'A' as nat + 10) as nat
    }
}

/// What a one-character escape stands for.
pub open spec fn simple_unescape(e: char) -> Option<char> {
    if e == '"' {
        Some('"')
    } else if e == '\\' {
        Some('\\')
    } else if e == '/' {
        Some('/')
    } else if e == 'b' {
        Some('\u{8}')
    } else if e == 'f' {
        Some('\u{c}')
    } else if e == 'n' {
        Some('\u{a}')
    } else if e == 'r' {
        Some('\u{d}')
    } else if e == 't' {
        Some('\u{9}')
    } else {
        None
    }
}

/// Parses the body of a JSON string from position `i` (just after the
/// opening quote) to its closing quote: the unescaped content and the
/// position after the closing quote.  Raw control characters are
/// rejected, `\uXXXX` is accepted for control code points — the only
/// ones the encoder writes that way.
pub open spec fn parse_str_body(s: Seq<char>, i: int) -> Option<(Seq<char>, int)>
    decreases s.len() - i,
{
    if i < 0 || i >= s.len() {
        None
    } else {
        let c = s[i];
        if c == '"' {
            Some((Seq::empty(), i + 1))
        } else if c == '\\' {
            if i + 1 >= s.len() {
                None
            } else {
                let e = s[i + 1];
                if e == 'u' {
                    if i + 6 > s.len() {
                        None
                    } else if !(is_hex(s[i + 2]) && is_hex(s[i + 3]) && is_hex(s[i + 4]) && is_hex(
                        s[i + 5],
                    )) {
                        None
                    } else {
                        let v = hex_val(s[i + 2]) * 4096 + hex_val(s[i + 3]) * 256 + hex_val(
                            s[i + 4],
                        ) * 16 + hex_val(s[i + 5]);
                        if v >= 0x20 {
                            None
                        } else {
                            match parse_str_body(s, i + 6) {
                                None => None,
                                Some(p) => Some((seq![((v as u8) as char)] + p.0, p.1)),
                            }
                        }
                    }
                } else {
                    match simple_unescape(e) {
                        None => None,
                        Some(c2) => match parse_str_body(s, i + 2) {
                            None => None,
                            Some(p) => Some((seq![c2] + p.0, p.1)),
                        },
                    }
                }
            }
        } else if (c as u32) < 0x20 {
            None
        } else {
            match parse_str_body(s, i + 1) {
                None => None,
                Some(p) => Some((seq![c] + p.0, p.1)),
            }
        }
    }
}

/// A parsed string ends after where it began and within the input.
pub proof fn lemma_parse_str_body_bounds(s: Seq<char>, i: int)
    requires
        0 <= i <= s.len(),
    ensures
        parse_str_body(s, i) matches Some(p) ==> i < p.1 <= s.len(),
    decreases s.len() - i,
{
    if i < s.len() {
        let c = s[i];
        if c == '"' {
        } else if c == '\\' {
            if i + 1 < s.len() {
                if s[i + 1] == 'u' {
                    if i + 6 <= s.len() {
                        lemma_parse_str_body_bounds(s, i + 6);
                    }
                } else {
                    lemma_parse_str_body_bounds(s, i + 2);
                }
            }
        } else {
            lemma_parse_str_body_bounds(s, i + 1);
        }
    }
}

/// Parses an unsigned JSON integer at `i`: a nonempty digit run, no
/// leading zero unless the value is zero, no fraction or exponent, and
/// a value within `u64`.
pub open spec fn parse_uint(s: Seq<char>, i: int) -> Option<(nat, int)> {
    let j = spec_scan_digits(s, i);
    if j == i {
        None
    } else if s[i] == '0' && j > i + 1 {
        None
    } else if dec_value(s.subrange(i, j)) > u64::MAX {
        None
    } else if j < s.len() && (s[j] == '.' || s[j] == 'e' || s[j] == 'E') {
        None
    } else {
        Some((dec_value(s.subrange(i, j)), j))
    }
}

/// The field slots of a record with two string fields and one numeric
/// field, while its members are being collected.
pub open spec fn slots2_view(st: (Option<String>, Option<String>, Option<u64>)) -> (
    Option<Seq<char>>,
    Option<Seq<char>>,
    Option<nat>,
) {
    (
        match st.0 {
            Some(x) => Some(x@),
            None => None,
        },
        match st.1 {
            Some(x) => Some(x@),
            None => None,
        },
        match st.2 {
            Some(n) => Some(n as nat),
            None => None,
        },
    )
}

/// Parses one `"name": value` member of a record with string fields
/// `a` and `b` and numeric field `c`, filling the matching slot.
/// An unknown or already-filled name rejects the document.
pub open spec fn parse_member_2s1n(
    s: Seq<char>,
    i: int,
    a: Seq<char>,
    b: Seq<char>,
    c: Seq<char>,
    st: (Option<Seq<char>>, Option<Seq<char>>, Option<nat>),
) -> Option<((Option<Seq<char>>, Option<Seq<char>>, Option<nat>), int)> {
    let j = skip_ws(s, i);
    if !(j < s.len() && s[j] == '"') {
        None
    } else {
        match parse_str_body(s, j + 1) {
            None => None,
            Some(np) => {
                let l = skip_ws(s, np.1);
                if !(l < s.len() && s[l] == ':') {
                    None
                } else {
                    let m = skip_ws(s, l + 1);
                    if np.0 == a {
                        if st.0 is Some {
                            None
                        } else if !(m < s.len() && s[m] == '"') {
                            None
                        } else {
                            match parse_str_body(s, m + 1) {
                                None => None,
                                Some(vp) => Some(((Some(vp.0), st.1, st.2), vp.1)),
                            }
                        }
                    } else if np.0 == b {
                        if st.1 is Some {
                            None
                        } else if !(m < s.len() && s[m] == '"') {
                            None
                        } else {
                            match parse_str_body(s, m + 1) {
                                None => None,
                                Some(vp) => Some(((st.0, Some(vp.0), st.2), vp.1)),
                            }
                        }
                    } else if np.0 == c {
                        if st.2 is Some {
                            None
                        } else {
                            match parse_uint(s, m) {
                                None => None,
                                Some(q) => Some(((st.0, st.1, Some(q.0)), q.1)),
                            }
                        }
                    } else {
                        None
                    }
                }
            }
        }
    }
}

/// Parses a whole record with string fields `a` and `b` and numeric
/// field `c`: three members in any order, each exactly once, nothing
/// but whitespace after the closing brace.
pub open spec fn parse_obj_2s1n(s: Seq<char>, a: Seq<char>, b: Seq<char>, c: Seq<char>) -> Option<
    (Seq<char>, Seq<char>, nat),
> {
    let i0 = skip_ws(s, 0);
    if !(i0 < s.len() && s[i0] == '{') {
        None
    } else {
        match parse_member_2s1n(s, i0 + 1, a, b, c, (None, None, None)) {
            None => None,
            Some(p1) => {
                let j1 = skip_ws(s, p1.1);
                if !(j1 < s.len() && s[j1] == ',') {
                    None
                } else {
                    match parse_member_2s1n(s, j1 + 1, a, b, c, p1.0) {
                        None => None,
                        Some(p2) => {
                            let j2 = skip_ws(s, p2.1);
                            if !(j2 < s.len() && s[j2] == ',') {
                                None
                            } else {
                                match parse_member_2s1n(s, j2 + 1, a, b, c, p2.0) {
                                    None => None,
                                    Some(p3) => {
                                        let j3 = skip_ws(s, p3.1);
                                        if !(j3 < s.len() && s[j3] == '}') {
                                            None
                                        } else if skip_ws(s, j3 + 1) != s.len() {
                                            None
                                        } else {
                                            match p3.0 {
                                                (Some(x), Some(y), Some(n)) => Some((x, y, n)),
                                                _ => None,
                                            }
                                        }
                                    }
                                }
                            }
                        }
                    }
                }
            }
        }
    }
}

/// Skips whitespace.
fn skip_ws_x(v: &Vec<char>, i: usize) -> (j: usize)
    requires
        i <= v@.len(),
    ensures
        j == skip_ws(v@, i as int),
        i <= j <= v@.len(),
{
    let mut j = i;
    while j < v.len() && (v[j] == ' ' || v[j] == '\t' || v[j] == '\n' || v[j] == '\r')
        invariant
            i <= j <= v@.len(),
            skip_ws(v@, i as int) == skip_ws(v@, j as int),
        decreases v@.len() - j,
    {
        j = j + 1;
    }
    j
}

/// Whether two strings hold the same characters.
fn str_eq(a: &str, b: &str) -> (r: bool)
    ensures
        r == (a@ == b@),
{
    let va = str_chars(a);
    let vb = str_chars(b);
    if va.len() != vb.len() {
        return false;
    }
    let mut i: usize = 0;
    while i < va.len()
        invariant
            0 <= i <= va@.len(),
            va@.len() == vb@.len(),
            va@ == a@,
            vb@ == b@,
            forall|k: int| 0 <= k < i ==> va@[k] == vb@[k],
        decreases va@.len() - i,
    {
        if va[i] != vb[i] {
            return false;
        }
        i = i + 1;
    }
    proof {
        assert(a@ =~= b@);
    }
    true
}

/// The value of a hexadecimal digit.
fn hex_val_x(c: char) -> (r: u32)
    requires
        is_hex(c),
    ensures
        r as nat == hex_val(c),
        r < 16,
{
    if '0' <= c && c <= '9' {
        c as u32 - '0' as u32
    } else if 'a' <= c && c <= 'f' {
        c as u32 - 'a' as u32 + 10
    } else {
        c as u32 - 'A' as u32 + 10
    }
}

/// Parses the body of a JSON string, from just after the opening quote.
fn parse_str_body_x(v: &Vec<char>, start: usize) -> (r: Option<(String, usize)>)
    requires
        start <= v@.len(),
    ensures
        (r is None <==> parse_str_body(v@, start as int) is None),
        (r matches Some(p) ==> parse_str_body(v@, start as int) == Some((p.0@, p.1 as int))
            && start < p.1 <= v@.len()),
{
    let ghost s = v@;
    let mut acc = String::new();
    let mut i = start;
    proof {
        lemma_parse_str_body_bounds(s, start as int);
        if parse_str_body(s, start as int) is Some {
            let p = parse_str_body(s, start as int).unwrap();
            assert(acc@ + p.0 =~= p.0);
        }
    }
    while i < v.len()
        invariant
            start <= i <= s.len(),
            s == v@,
            (parse_str_body(s, start as int) is None <==> parse_str_body(s, i as int) is None),
            (parse_str_body(s, i as int) matches Some(p) ==> parse_str_body(s, start as int)
                == Some((acc@ + p.0, p.1)) && i < p.1 <= s.len()),
        decreases s.len() - i,
    {
        proof {
            lemma_parse_str_body_bounds(s, i as int);
        }
        let c = v[i];
        if c == '"' {
            proof {
                assert(parse_str_body(s, i as int) == Some((Seq::<char>::empty(), i + 1)));
                assert(acc@ + Seq::<char>::empty() =~= acc@);
            }
            return Some((acc, i + 1));
        } else if c == '\\' {
            if i + 1 >= v.len() {
                return None;
            }
            let e = v[i + 1];
            if e == 'u' {
                if v.len() - i < 6 {
                    return None;
                }
                let h2 = v[i + 2];
                let h3 = v[i + 3];
                let h4 = v[i + 4];
                let h5 = v[i + 5];
                let hex_ok = ('0' <= h2 && h2 <= '9' || 'a' <= h2 && h2 <= 'f' || 'A' <= h2 && h2
                    <= 'F') && ('0' <= h3 && h3 <= '9' || 'a' <= h3 && h3 <= 'f' || 'A' <= h3 && h3
                    <= 'F') && ('0' <= h4 && h4 <= '9' || 'a' <= h4 && h4 <= 'f' || 'A' <= h4 && h4
                    <= 'F') && ('0' <= h5 && h5 <= '9' || 'a' <= h5 && h5 <= 'f' || 'A' <= h5 && h5
                    <= 'F');
                if !hex_ok {
                    return None;
                }
                let val: u32 = hex_val_x(h2) * 4096 + hex_val_x(h3) * 256 + hex_val_x(h4) * 16
                    + hex_val_x(h5);
                if val >= 0x20 {
                    return None;
                }
                let ghost old_acc = acc@;
                let ch = val as u8 as char;
                push_char(&mut acc, ch);
                proof {
                    lemma_parse_str_body_bounds(s, i + 6);
                    assert(acc@ =~= old_acc + seq![ch]);
                    if parse_str_body(s, i + 6) is Some {
                        let p2 = parse_str_body(s, i + 6).unwrap();
                        assert(parse_str_body(s, i as int) == Some((seq![ch] + p2.0, p2.1)));
                        assert(old_acc + (seq![ch] + p2.0) =~= (old_acc + seq![ch]) + p2.0);
                    }
                }
                i = i + 6;
            } else {
                let c2 = if e == '"' {
                    '"'
                } else if e == '\\' {
                    '\\'
                } else if e == '/' {
                    '/'
                } else if e == 'b' {
                    '\u{8}'
                } else if e == 'f' {
                    '\u{c}'
                } else if e == 'n' {
                    '\u{a}'
                } else if e == 'r' {
                    '\u{d}'
                } else if e == 't' {
                    '\u{9}'
                } else {
                    return None;
                };
                let ghost old_acc = acc@;
                push_char(&mut acc, c2);
                proof {
                    lemma_parse_str_body_bounds(s, i + 2);
                    assert(acc@ =~= old_acc + seq![c2]);
                    if parse_str_body(s, i + 2) is Some {
                        let p2 = parse_str_body(s, i + 2).unwrap();
                        assert(parse_str_body(s, i as int) == Some((seq![c2] + p2.0, p2.1)));
                        assert(old_acc + (seq![c2] + p2.0) =~= (old_acc + seq![c2]) + p2.0);
                    }
                }
                i = i + 2;
            }
        } else if (c as u32) < 0x20 {
            return None;
        } else {
            let ghost old_acc = acc@;
            push_char(&mut acc, c);
            proof {
                lemma_parse_str_body_bounds(s, i + 1);
                assert(acc@ =~= old_acc + seq![c]);
                if parse_str_body(s, i + 1) is Some {
                    let p2 = parse_str_body(s, i + 1).unwrap();
                    assert(parse_str_body(s, i as int) == Some((seq![c] + p2.0, p2.1)));
                    assert(old_acc + (seq![c] + p2.0) =~= (old_acc + seq![c]) + p2.0);
                }
            }
            i = i + 1;
        }
    }
    None
}

/// Parses an unsigned JSON integer.
fn parse_uint_x(v: &Vec<char>, i: usize) -> (r: Option<(u64, usize)>)
    requires
        i <= v@.len(),
    ensures
        (r is None <==> parse_uint(v@, i as int) is None),
        (r matches Some(p) ==> parse_uint(v@, i as int) == Some((p.0 as nat, p.1 as int)) && i
            < p.1 <= v@.len()),
{
    let (j, val) = parse_dec_run(v, i);
    proof {
        lemma_scan_digits(v@, i as int);
    }
    if j == i {
        return None;
    }
    if v[i] == '0' && j > i + 1 {
        return None;
    }
    let n = match val {
        None => {
            return None;
        },
        Some(n) => n,
    };
    if j < v.len() {
        let t = v[j];
        if t == '.' || t == 'e' || t == 'E' {
            return None;
        }
    }
    Some((n, j))
}

/// Parses one member of a two-strings-one-number record.
fn parse_member_2s1n_x(
    v: &Vec<char>,
    i: usize,
    a: &str,
    b: &str,
    c: &str,
    st: (Option<String>, Option<String>, Option<u64>),
) -> (r: Option<((Option<String>, Option<String>, Option<u64>), usize)>)
    requires
        i <= v@.len(),
    ensures
        (r is None <==> parse_member_2s1n(v@, i as int, a@, b@, c@, slots2_view(st)) is None),
        (r matches Some(p) ==> parse_member_2s1n(v@, i as int, a@, b@, c@, slots2_view(st))
            == Some((slots2_view(p.0), p.1 as int)) && p.1 <= v@.len()),
{
    let j = skip_ws_x(v, i);
    if !(j < v.len() && v[j] == '"') {
        return None;
    }
    let (name, k) = match parse_str_body_x(v, j + 1) {
        None => {
            return None;
        },
        Some(p) => p,
    };
    let l = skip_ws_x(v, k);
    if !(l < v.len() && v[l] == ':') {
        return None;
    }
    let m = skip_ws_x(v, l + 1);
    if str_eq(name.as_str(), a) {
        if st.0.is_some() {
            return None;
        }
        if !(m < v.len() && v[m] == '"') {
            return None;
        }
        match parse_str_body_x(v, m + 1) {
            None => None,
            Some(vp) => Some(((Some(vp.0), st.1, st.2), vp.1)),
        }
    } else if str_eq(name.as_str(), b) {
        if st.1.is_some() {
            return None;
        }
        if !(m < v.len() && v[m] == '"') {
            return None;
        }
        match parse_str_body_x(v, m + 1) {
            None => None,
            Some(vp) => Some(((st.0, Some(vp.0), st.2), vp.1)),
        }
    } else if str_eq(name.as_str(), c) {
        if st.2.is_some() {
            return None;
        }
        match parse_uint_x(v, m) {
            None => None,
            Some(q) => Some(((st.0, st.1, Some(q.0)), q.1)),
        }
    } else {
        None
    }
}

/// Parses a whole two-strings-one-number record.
fn parse_obj_2s1n_x(v: &Vec<char>, a: &str, b: &str, c: &str) -> (r: Option<(String, String, u64)>)
    ensures
        (r is None <==> parse_obj_2s1n(v@, a@, b@, c@) is None),
        (r matches Some(t) ==> parse_obj_2s1n(v@, a@, b@, c@) == Some((t.0@, t.1@, t.2 as nat))),
{
    let i0 = skip_ws_x(v, 0);
    if !(i0 < v.len() && v[i0] == '{') {
        return None;
    }
    let (st1, e1) = match parse_member_2s1n_x(v, i0 + 1, a, b, c, (None, None, None)) {
        None => {
            return None;
        },
        Some(p) => p,
    };
    let j1 = skip_ws_x(v, e1);
    if !(j1 < v.len() && v[j1] == ',') {
        return None;
    }
    let (st2, e2) = match parse_member_2s1n_x(v, j1 + 1, a, b, c, st1) {
        None => {
            return None;
        },
        Some(p) => p,
    };
    let j2 = skip_ws_x(v, e2);
    if !(j2 < v.len() && v[j2] == ',') {
        return None;
    }
    let (st3, e3) = match parse_member_2s1n_x(v, j2 + 1, a, b, c, st2) {
        None => {
            return None;
        },
        Some(p) => p,
    };
    let j3 = skip_ws_x(v, e3);
    if !(j3 < v.len() && v[j3] == '}') {
        return None;
    }
    if skip_ws_x(v, j3 + 1) != v.len() {
        return None;
    }
    match st3 {
        (Some(x), Some(y), Some(n)) => Some((x, y, n)),
        _ => None,
    }
}

/// The `path` field name.
pub open spec fn name_path() -> Seq<char> {
    seq!['p', 'a', 't', 'h']
}

/// The `key` field name.
pub open spec fn name_key() -> Seq<char> {
    seq!['k', 'e', 'y']
}

/// The `fragment_size` field name.
pub open spec fn name_fragment_size() -> Seq<char> {
    seq!['f', 'r', 'a', 'g', 'm', 'e', 'n', 't', '_', 's', 'i', 'z', 'e']
}

/// The `pace` field name.
pub open spec fn name_pace() -> Seq<char> {
    seq!['p', 'a', 'c', 'e']
}

/// What `decode_upload_intent` accepts: the record's three fields in
/// any order, with a fragment size that fits the machine.
pub open spec fn spec_decode_upload(s: Seq<char>) -> Option<(Seq<char>, Seq<char>, nat)> {
    match parse_obj_2s1n(s, name_path(), name_key(), name_fragment_size()) {
        None => None,
        Some(t) => if t.2 <= usize::MAX {
            Some(t)
        } else {
            None
        },
    }
}

/// What `decode_download_intent` accepts.
pub open spec fn spec_decode_download(s: Seq<char>) -> Option<(Seq<char>, Seq<char>, nat)> {
    match parse_obj_2s1n(s, name_key(), name_path(), name_pace()) {
        None => None,
        Some(t) => if t.2 <= usize::MAX {
            Some(t)
        } else {
            None
        },
    }
}

/// Decodes an upload intent: the three fields `path`, `key` and
/// `fragment_size` in any order, each exactly once; anything else is
/// the recoverable `IntentParse` error.
pub fn decode_upload_intent(s: &str) -> (r: Result<UploadDigest, ZfsError>)
    ensures
        (r matches Ok(d) ==> spec_decode_upload(s@) == Some(
            (d.path@, d.key@, d.fragment_size as nat),
        )),
        (r is Err <==> spec_decode_upload(s@) is None),
        (r matches Err(e) ==> e == ZfsError::IntentParse),
{
    proof {
        reveal_strlit("path");
        reveal_strlit("key");
        reveal_strlit("fragment_size");
        assert("path"@ =~= name_path());
        assert("key"@ =~= name_key());
        assert("fragment_size"@ =~= name_fragment_size());
    }
    let chars = str_chars(s);
    match parse_obj_2s1n_x(&chars, "path", "key", "fragment_size") {
        None => Err(ZfsError::IntentParse),
        Some((path, key, n)) => {
            if n > usize::MAX as u64 {
                Err(ZfsError::IntentParse)
            } else {
                Ok(UploadDigest { path, key, fragment_size: n as usize })
            }
        },
    }
}

/// Decodes a download intent: the three fields `key`, `path` and
/// `pace` in any order, each exactly once; anything else is the
/// recoverable `IntentParse` error.
pub fn decode_download_intent(s: &str) -> (r: Result<DownloadDigest, ZfsError>)
    ensures
        (r matches Ok(d) ==> spec_decode_download(s@) == Some((d.key@, d.path@, d.pace as nat))),
        (r is Err <==> spec_decode_download(s@) is None),
        (r matches Err(e) ==> e == ZfsError::IntentParse),
{
    proof {
        reveal_strlit("path");
        reveal_strlit("key");
        reveal_strlit("pace");
        assert("path"@ =~= name_path());
        assert("key"@ =~= name_key());
        assert("pace"@ =~= name_pace());
    }
    let chars = str_chars(s);
    match parse_obj_2s1n_x(&chars, "key", "path", "pace") {
        None => Err(ZfsError::IntentParse),
        Some((key, path, n)) => {
            if n > usize::MAX as u64 {
                Err(ZfsError::IntentParse)
            } else {
                Ok(DownloadDigest { key, path, pace: n as usize })
            }
        },
    }
}

/// The field slots of the fragmentation digest record, while its
/// members are being collected.
pub open spec fn slots5_view(
    st: (Option<String>, Option<u64>, Option<u64>, Option<u64>, Option<u64>),
) -> (Option<Seq<char>>, Option<nat>, Option<nat>, Option<nat>, Option<nat>) {
    (
        match st.0 {
            Some(x) => Some(x@),
            None => None,
        },
        match st.1 {
            Some(n) => Some(n as nat),
            None => None,
        },
        match st.2 {
            Some(n) => Some(n as nat),
            None => None,
        },
        match st.3 {
            Some(n) => Some(n as nat),
            None => None,
        },
        match st.4 {
            Some(n) => Some(n as nat),
            None => None,
        },
    )
}

/// Parses one `"name": value` member of a record with string field
/// `a` and numeric fields `n1` to `n4`, filling the matching slot.
pub open spec fn parse_member_1s4n(
    s: Seq<char>,
    i: int,
    a: Seq<char>,
    n1: Seq<char>,
    n2: Seq<char>,
    n3: Seq<char>,
    n4: Seq<char>,
    st: (Option<Seq<char>>, Option<nat>, Option<nat>, Option<nat>, Option<nat>),
) -> Option<((Option<Seq<char>>, Option<nat>, Option<nat>, Option<nat>, Option<nat>), int)> {
    let j = skip_ws(s, i);
    if !(j < s.len() && s[j] == '"') {
        None
    } else {
        match parse_str_body(s, j + 1) {
            None => None,
            Some(np) => {
                let l = skip_ws(s, np.1);
                if !(l < s.len() && s[l] == ':') {
                    None
                } else {
                    let m = skip_ws(s, l + 1);
                    if np.0 == a {
                        if st.0 is Some {
                            None
                        } else if !(m < s.len() && s[m] == '"') {
                            None
                        } else {
                            match parse_str_body(s, m + 1) {
                                None => None,
                                Some(vp) => Some(
                                    ((Some(vp.0), st.1, st.2, st.3, st.4), vp.1),
                                ),
                            }
                        }
                    } else if np.0 == n1 {
                        if st.1 is Some {
                            None
                        } else {
                            match parse_uint(s, m) {
                                None => None,
                                Some(q) => Some(((st.0, Some(q.0), st.2, st.3, st.4), q.1)),
                            }
                        }
                    } else if np.0 == n2 {
                        if st.2 is Some {
                            None
                        } else {
                            match parse_uint(s, m) {
                                None => None,
                                Some(q) => Some(((st.0, st.1, Some(q.0), st.3, st.4), q.1)),
                            }
                        }
                    } else if np.0 == n3 {
                        if st.3 is Some {
                            None
                        } else {
                            match parse_uint(s, m) {
                                None => None,
                                Some(q) => Some(((st.0, st.1, st.2, Some(q.0), st.4), q.1)),
                            }
                        }
                    } else if np.0 == n4 {
                        if st.4 is Some {
                            None
                        } else {
                            match parse_uint(s, m) {
                                None => None,
                                Some(q) => Some(((st.0, st.1, st.2, st.3, Some(q.0)), q.1)),
                            }
                        }
                    } else {
                        None
                    }
                }
            }
        }
    }
}

/// Parses a whole record with string field `a` and numeric fields
/// `n1` to `n4`: five members in any order, each exactly once,
/// nothing but whitespace after the closing brace.
pub open spec fn parse_obj_1s4n(
    s: Seq<char>,
    a: Seq<char>,
    n1: Seq<char>,
    n2: Seq<char>,
    n3: Seq<char>,
    n4: Seq<char>,
) -> Option<(Seq<char>, nat, nat, nat, nat)> {
    let i0 = skip_ws(s, 0);
    if !(i0 < s.len() && s[i0] == '{') {
        None
    } else {
        match parse_member_1s4n(s, i0 + 1, a, n1, n2, n3, n4, (None, None, None, None, None)) {
            None => None,
            Some(p1) => {
                let j1 = skip_ws(s, p1.1);
                if !(j1 < s.len() && s[j1] == ',') {
                    None
                } else {
                    match parse_member_1s4n(s, j1 + 1, a, n1, n2, n3, n4, p1.0) {
                        None => None,
                        Some(p2) => {
                            let j2 = skip_ws(s, p2.1);
                            if !(j2 < s.len() && s[j2] == ',') {
                                None
                            } else {
                                match parse_member_1s4n(s, j2 + 1, a, n1, n2, n3, n4, p2.0) {
                                    None => None,
                                    Some(p3) => {
                                        let j3 = skip_ws(s, p3.1);
                                        if !(j3 < s.len() && s[j3] == ',') {
                                            None
                                        } else {
                                            match parse_member_1s4n(
                                                s,
                                                j3 + 1,
                                                a,
                                                n1,
                                                n2,
                                                n3,
                                                n4,
                                                p3.0,
                                            ) {
                                                None => None,
                                                Some(p4) => {
                                                    let j4 = skip_ws(s, p4.1);
                                                    if !(j4 < s.len() && s[j4] == ',') {
                                                        None
                                                    } else {
                                                        match parse_member_1s4n(
                                                            s,
                                                            j4 + 1,
                                                            a,
                                                            n1,
                                                            n2,
                                                            n3,
                                                            n4,
                                                            p4.0,
                                                        ) {
                                                            None => None,
                                                            Some(p5) => {
                                                                let j5 = skip_ws(s, p5.1);
                                                                if !(j5 < s.len() && s[j5]
                                                                    == '}') {
                                                                    None
                                                                } else if skip_ws(s, j5 + 1)
                                                                    != s.len() {
                                                                    None
                                                                } else {
                                                                    match p5.0 {
                                                                        (
                                                                            Some(x),
                                                                            Some(a1),
                                                                            Some(a2),
                                                                            Some(a3),
                                                                            Some(a4),
                                                                        ) => Some(
                                                                            (x, a1, a2, a3, a4),
                                                                        ),
                                                                        _ => None,
                                                                    }
                                                                }
                                                            },
                                                        }
                                                    }
                                                },
                                            }
                                        }
                                    },
                                }
                            }
                        },
                    }
                }
            },
        }
    }
}

/// Parses one member of the digest record.
fn parse_member_1s4n_x(
    v: &Vec<char>,
    i: usize,
    a: &str,
    n1: &str,
    n2: &str,
    n3: &str,
    n4: &str,
    st: (Option<String>, Option<u64>, Option<u64>, Option<u64>, Option<u64>),
) -> (r: Option<((Option<String>, Option<u64>, Option<u64>, Option<u64>, Option<u64>), usize)>)
    requires
        i <= v@.len(),
    ensures
        (r is None <==> parse_member_1s4n(
            v@,
            i as int,
            a@,
            n1@,
            n2@,
            n3@,
            n4@,
            slots5_view(st),
        ) is None),
        (r matches Some(p) ==> parse_member_1s4n(
            v@,
            i as int,
            a@,
            n1@,
            n2@,
            n3@,
            n4@,
            slots5_view(st),
        ) == Some((slots5_view(p.0), p.1 as int)) && p.1 <= v@.len()),
{
    let j = skip_ws_x(v, i);
    if !(j < v.len() && v[j] == '"') {
        return None;
    }
    let (name, k) = match parse_str_body_x(v, j + 1) {
        None => {
            return None;
        },
        Some(p) => p,
    };
    let l = skip_ws_x(v, k);
    if !(l < v.len() && v[l] == ':') {
        return None;
    }
    let m = skip_ws_x(v, l + 1);
    if str_eq(name.as_str(), a) {
        if st.0.is_some() {
            return None;
        }
        if !(m < v.len() && v[m] == '"') {
            return None;
        }
        match parse_str_body_x(v, m + 1) {
            None => None,
            Some(vp) => Some(((Some(vp.0), st.1, st.2, st.3, st.4), vp.1)),
        }
    } else if str_eq(name.as_str(), n1) {
        if st.1.is_some() {
            return None;
        }
        match parse_uint_x(v, m) {
            None => None,
            Some(q) => Some(((st.0, Some(q.0), st.2, st.3, st.4), q.1)),
        }
    } else if str_eq(name.as_str(), n2) {
        if st.2.is_some() {
            return None;
        }
        match parse_uint_x(v, m) {
            None => None,
            Some(q) => Some(((st.0, st.1, Some(q.0), st.3, st.4), q.1)),
        }
    } else if str_eq(name.as_str(), n3) {
        if st.3.is_some() {
            return None;
        }
        match parse_uint_x(v, m) {
            None => None,
            Some(q) => Some(((st.0, st.1, st.2, Some(q.0), st.4), q.1)),
        }
    } else if str_eq(name.as_str(), n4) {
        if st.4.is_some() {
            return None;
        }
        match parse_uint_x(v, m) {
            None => None,
            Some(q) => Some(((st.0, st.1, st.2, st.3, Some(q.0)), q.1)),
        }
    } else {
        None
    }
}

/// Parses the whole digest record.
fn parse_obj_1s4n_x(v: &Vec<char>, a: &str, n1: &str, n2: &str, n3: &str, n4: &str) -> (r: Option<
    (String, u64, u64, u64, u64),
>)
    ensures
        (r is None <==> parse_obj_1s4n(v@, a@, n1@, n2@, n3@, n4@) is None),
        (r matches Some(t) ==> parse_obj_1s4n(v@, a@, n1@, n2@, n3@, n4@) == Some(
            (t.0@, t.1 as nat, t.2 as nat, t.3 as nat, t.4 as nat),
        )),
{
    let i0 = skip_ws_x(v, 0);
    if !(i0 < v.len() && v[i0] == '{') {
        return None;
    }
    let (st1, e1) = match parse_member_1s4n_x(
        v,
        i0 + 1,
        a,
        n1,
        n2,
        n3,
        n4,
        (None, None, None, None, None),
    ) {
        None => {
            return None;
        },
        Some(p) => p,
    };
    let j1 = skip_ws_x(v, e1);
    if !(j1 < v.len() && v[j1] == ',') {
        return None;
    }
    let (st2, e2) = match parse_member_1s4n_x(v, j1 + 1, a, n1, n2, n3, n4, st1) {
        None => {
            return None;
        },
        Some(p) => p,
    };
    let j2 = skip_ws_x(v, e2);
    if !(j2 < v.len() && v[j2] == ',') {
        return None;
    }
    let (st3, e3) = match parse_member_1s4n_x(v, j2 + 1, a, n1, n2, n3, n4, st2) {
        None => {
            return None;
        },
        Some(p) => p,
    };
    let j3 = skip_ws_x(v, e3);
    if !(j3 < v.len() && v[j3] == ',') {
        return None;
    }
    let (st4, e4) = match parse_member_1s4n_x(v, j3 + 1, a, n1, n2, n3, n4, st3) {
        None => {
            return None;
        },
        Some(p) => p,
    };
    let j4 = skip_ws_x(v, e4);
    if !(j4 < v.len() && v[j4] == ',') {
        return None;
    }
    let (st5, e5) = match parse_member_1s4n_x(v, j4 + 1, a, n1, n2, n3, n4, st4) {
        None => {
            return None;
        },
        Some(p) => p,
    };
    let j5 = skip_ws_x(v, e5);
    if !(j5 < v.len() && v[j5] == '}') {
        return None;
    }
    if skip_ws_x(v, j5 + 1) != v.len() {
        return None;
    }
    match st5 {
        (Some(x), Some(a1), Some(a2), Some(a3), Some(a4)) => Some((x, a1, a2, a3, a4)),
        _ => None,
    }
}

/// The `name` field name.
pub open spec fn name_name() -> Seq<char> {
    seq!['n', 'a', 'm', 'e']
}

/// The `size` field name.
pub open spec fn name_size() -> Seq<char> {
    seq!['s', 'i', 'z', 'e']
}

/// The `crc` field name.
pub open spec fn name_crc() -> Seq<char> {
    seq!['c', 'r', 'c']
}

/// The `fragments` field name.
pub open spec fn name_fragments() -> Seq<char> {
    seq!['f', 'r', 'a', 'g', 'm', 'e', 'n', 't', 's']
}

/// What `decode_fragmentation_digest` accepts: the record's five
/// fields in any order, with the sizes within their machine types.
pub open spec fn spec_decode_digest(s: Seq<char>) -> Option<(Seq<char>, nat, nat, nat, nat)> {
    match parse_obj_1s4n(s, name_name(), name_size(), name_crc(), name_fragment_size(),
        name_fragments()) {
        None => None,
        Some(t) => if t.3 <= usize::MAX && t.4 <= u32::MAX {
            Some(t)
        } else {
            None
        },
    }
}

/// Decodes a fragmentation digest: the five fields `name`, `size`,
/// `crc`, `fragment_size` and `fragments` in any order, each exactly
/// once; anything else is the recoverable `IntentParse` error.
pub fn decode_fragmentation_digest(s: &str) -> (r: Result<FragmentationDigest, ZfsError>)
    ensures
        (r matches Ok(d) ==> spec_decode_digest(s@) == Some(
            (d.name@, d.size as nat, d.crc as nat, d.fragment_size as nat, d.fragments as nat),
        )),
        (r is Err <==> spec_decode_digest(s@) is None),
        (r matches Err(e) ==> e == ZfsError::IntentParse),
{
    proof {
        reveal_strlit("name");
        reveal_strlit("size");
        reveal_strlit("crc");
        reveal_strlit("fragment_size");
        reveal_strlit("fragments");
        assert("name"@ =~= name_name());
        assert("size"@ =~= name_size());
        assert("crc"@ =~= name_crc());
        assert("fragment_size"@ =~= name_fragment_size());
        assert("fragments"@ =~= name_fragments());
    }
    let chars = str_chars(s);
    match parse_obj_1s4n_x(&chars, "name", "size", "crc", "fragment_size", "fragments") {
        None => Err(ZfsError::IntentParse),
        Some((name, size, crc, fragment_size, fragments)) => {
            if fragment_size > usize::MAX as u64 {
                Err(ZfsError::IntentParse)
            } else if fragments > u32::MAX as u64 {
                Err(ZfsError::IntentParse)
            } else {
                Ok(
                    FragmentationDigest {
                        name,
                        size,
                        crc,
                        fragment_size: fragment_size as usize,
                        fragments: fragments as u32,
                    },
                )
            }
        },
    }
}

/// A character that JSON strings carry verbatim.
pub open spec fn is_plain_char(c: char) -> bool {
    c != '"' && c != '\\' && c as u32 >= 0x20
}

/// A string of plain characters escapes to itself.
pub proof fn lemma_escape_plain(s: Seq<char>)
    requires
        forall|i: int| 0 <= i < s.len() ==> is_plain_char(#[trigger] s[i]),
    ensures
        json_escape(s) == s,
    decreases s.len(),
{
    if s.len() == 0 {
        assert(json_escape(s) =~= s);
    } else {
        assert(is_plain_char(s[0]));
        assert(forall|i: int|
            0 <= i < s.drop_first().len() ==> is_plain_char(#[trigger] s.drop_first()[i]));
        lemma_escape_plain(s.drop_first());
        assert(esc_char(s[0]) =~= seq![s[0]]);
        assert(json_escape(s) =~= s);
    }
}

/// The digit scan ends exactly where the digits end.
proof fn lemma_scan_digits_range(s: Seq<char>, i: int, j: int)
    requires
        0 <= i <= j <= s.len(),
        forall|k: int| i <= k < j ==> is_digit(#[trigger] s[k]),
        j == s.len() || !is_digit(s[j]),
    ensures
        spec_scan_digits(s, i) == j,
    decreases j - i,
{
    if i < j {
        assert(is_digit(s[i]));
        lemma_scan_digits_range(s, i + 1, j);
    }
}

/// A canonical decimal rendering at position `i`, followed by a
/// terminator that ends the number, parses back to its value.
proof fn lemma_parse_uint_at(s: Seq<char>, i: int, n: nat)
    requires
        0 <= i,
        n <= u64::MAX,
        i + dec_digits(n).len() < s.len(),
        s.subrange(i, i + dec_digits(n).len()) == dec_digits(n),
        !is_digit(s[i + dec_digits(n).len()]),
        s[i + dec_digits(n).len()] != '.',
        s[i + dec_digits(n).len()] != 'e',
        s[i + dec_digits(n).len()] != 'E',
    ensures
        parse_uint(s, i) == Some((n, i + dec_digits(n).len())),
{
    let d = dec_digits(n);
    let j = i + d.len();
    crate::strnum::lemma_dec_digits_shape(n);
    crate::strnum::lemma_dec_roundtrip(n);
    assert forall|k: int| i <= k < j implies is_digit(#[trigger] s[k]) by {
        assert(s[k] == s.subrange(i, j)[k - i]);
        assert(d[k - i] == s[k]);
    }
    lemma_scan_digits_range(s, i, j);
    assert(s[i] == d[0]);
    if n == 0 {
        assert(d.len() == 1);
    } else {
        assert(s[i] != '0');
    }
    assert(dec_value(s.subrange(i, j)) == n);
}

/// Where the escaped form of `u` sits in `s` at `i`, closed by a
/// quote.
pub open spec fn escaped_at(s: Seq<char>, i: int, u: Seq<char>) -> bool {
    &&& 0 <= i
    &&& i + json_escape(u).len() + 1 <= s.len()
    &&& s.subrange(i, i + json_escape(u).len()) == json_escape(u)
    &&& s[i + json_escape(u).len()] == '"'
}

/// The string parser inverts the escaper: at the start of an escaped
/// string it returns the original characters and stops just after the
/// closing quote.
proof fn lemma_parse_escaped(s: Seq<char>, i: int, u: Seq<char>)
    requires
        escaped_at(s, i, u),
    ensures
        parse_str_body(s, i) == Some((u, i + json_escape(u).len() + 1)),
    decreases u.len(),
{
    let esc = json_escape(u);
    if u.len() == 0 {
        assert(esc =~= Seq::<char>::empty());
        assert(s[i] == '"');
        assert(u =~= Seq::<char>::empty());
    } else {
        let c = u[0];
        let u2 = u.drop_first();
        let e1 = esc_char(c);
        let esc2 = json_escape(u2);
        assert(esc == e1 + esc2);
        let i2 = i + e1.len();
        assert forall|k: int| 0 <= k < e1.len() implies s[i + k] == e1[k] by {
            assert(s.subrange(i, i + esc.len())[k] == s[i + k]);
            assert((e1 + esc2)[k] == e1[k]);
        }
        assert(s.subrange(i2, i2 + esc2.len()) =~= esc2) by {
            assert forall|k: int|
                0 <= k < esc2.len() implies s.subrange(i2, i2 + esc2.len())[k] == esc2[k] by {
                assert(s.subrange(i2, i2 + esc2.len())[k] == s[i2 + k]);
                assert(s[i2 + k] == s.subrange(i, i + esc.len())[e1.len() + k]);
                assert((e1 + esc2)[e1.len() + k] == esc2[k]);
            }
        }
        assert(s[i2 + esc2.len()] == '"');
        assert(escaped_at(s, i2, u2));
        lemma_parse_escaped(s, i2, u2);
        let end = i + esc.len() + 1;
        assert(parse_str_body(s, i2) == Some((u2, end)));
        assert(seq![c] + u2 =~= u);
        if c == '"' {
            assert(s[i] == '\\' && s[i + 1] == '"');
            assert(simple_unescape(s[i + 1]) == Some('"'));
            assert(parse_str_body(s, i) == Some((seq![c] + u2, end)));
        } else if c == '\\' {
            assert(s[i] == '\\' && s[i + 1] == '\\');
            assert(simple_unescape(s[i + 1]) == Some('\\'));
            assert(parse_str_body(s, i) == Some((seq![c] + u2, end)));
        } else if c == '\u{8}' {
            assert(s[i] == '\\' && s[i + 1] == 'b');
            assert(simple_unescape(s[i + 1]) == Some('\u{8}'));
            assert(parse_str_body(s, i) == Some((seq![c] + u2, end)));
        } else if c == '\u{9}' {
            assert(s[i] == '\\' && s[i + 1] == 't');
            assert(simple_unescape(s[i + 1]) == Some('\u{9}'));
            assert(parse_str_body(s, i) == Some((seq![c] + u2, end)));
        } else if c == '\u{a}' {
            assert(s[i] == '\\' && s[i + 1] == 'n');
            assert(simple_unescape(s[i + 1]) == Some('\u{a}'));
            assert(parse_str_body(s, i) == Some((seq![c] + u2, end)));
        } else if c == '\u{c}' {
            assert(s[i] == '\\' && s[i + 1] == 'f');
            assert(simple_unescape(s[i + 1]) == Some('\u{c}'));
            assert(parse_str_body(s, i) == Some((seq![c] + u2, end)));
        } else if c == '\u{d}' {
            assert(s[i] == '\\' && s[i + 1] == 'r');
            assert(simple_unescape(s[i + 1]) == Some('\u{d}'));
            assert(parse_str_body(s, i) == Some((seq![c] + u2, end)));
        } else if (c as u32) < 0x20 {
            let hi = (c as u32 / 16) as nat;
            let lo = (c as u32 % 16) as nat;
            assert(e1 == seq!['\\', 'u', '0', '0', hex_digit(hi), hex_digit(lo)]);
            assert(s[i] == '\\' && s[i + 1] == 'u' && s[i + 2] == '0' && s[i + 3] == '0');
            assert(s[i + 4] == hex_digit(hi) && s[i + 5] == hex_digit(lo));
            assert(hi < 2 && lo < 16);
            assert(is_hex(hex_digit(hi)) && hex_val(hex_digit(hi)) == hi);
            assert(is_hex(hex_digit(lo)) && hex_val(hex_digit(lo)) == lo);
            assert(is_hex(s[i + 2]) && hex_val(s[i + 2]) == 0);
            let v = hex_val(s[i + 2]) * 4096 + hex_val(s[i + 3]) * 256 + hex_val(s[i + 4]) * 16
                + hex_val(s[i + 5]);
            vstd::arithmetic::div_mod::lemma_fundamental_div_mod(c as u32 as int, 16);
            assert(v == c as u32);
            vstd::utf8::char_u32_cast(c, c as u32);
            assert(((c as u32) as char) == c);
            assert(((v as u8) as char) == c);
            assert(i + 6 == i2 && i2 <= s.len());
            assert(parse_str_body(s, i) == Some((seq![(v as u8) as char] + u2, end)));
            assert(seq![(v as u8) as char] + u2 == seq![c] + u2);
        } else {
            assert(e1 == seq![c]);
            assert(s[i] == c);
            assert(c != '"' && c != '\\' && !((c as u32) < 0x20));
            assert(parse_str_body(s, i) == Some((seq![c] + u2, end)));
        }
        assert(parse_str_body(s, i) == Some((u, end)));
    }
}

/// One string-valued member whose name is field `a`, laid out
/// canonically at `i`.
#[verifier::spinoff_prover]
proof fn lemma_member_a_at(
    s: Seq<char>,
    i: int,
    a: Seq<char>,
    b: Seq<char>,
    c: Seq<char>,
    st: (Option<Seq<char>>, Option<Seq<char>>, Option<nat>),
    value: Seq<char>,
)
    requires
        0 <= i < s.len(),
        s[i] == '"',
        escaped_at(s, i + 1, a),
        st.0 is None,
        i + json_escape(a).len() + 3 < s.len(),
        s[i + json_escape(a).len() + 2] == ':',
        s[i + json_escape(a).len() + 3] == '"',
        escaped_at(s, i + json_escape(a).len() + 4, value),
    ensures
        parse_member_2s1n(s, i, a, b, c, st) == Some(
            ((Some(value), st.1, st.2), i + json_escape(a).len() + json_escape(value).len() + 5),
        ),
{
    lemma_parse_escaped(s, i + 1, a);
    let k = i + json_escape(a).len() + 2;
    lemma_parse_escaped(s, k + 2, value);
    assert(skip_ws(s, i) == i);
    assert(skip_ws(s, k) == k);
    assert(skip_ws(s, k + 1) == k + 1);
}

/// One string-valued member whose name is field `b`.
#[verifier::spinoff_prover]
proof fn lemma_member_b_at(
    s: Seq<char>,
    i: int,
    a: Seq<char>,
    b: Seq<char>,
    c: Seq<char>,
    st: (Option<Seq<char>>, Option<Seq<char>>, Option<nat>),
    value: Seq<char>,
)
    requires
        0 <= i < s.len(),
        s[i] == '"',
        escaped_at(s, i + 1, b),
        b != a,
        st.1 is None,
        i + json_escape(b).len() + 3 < s.len(),
        s[i + json_escape(b).len() + 2] == ':',
        s[i + json_escape(b).len() + 3] == '"',
        escaped_at(s, i + json_escape(b).len() + 4, value),
    ensures
        parse_member_2s1n(s, i, a, b, c, st) == Some(
            ((st.0, Some(value), st.2), i + json_escape(b).len() + json_escape(value).len() + 5),
        ),
{
    lemma_parse_escaped(s, i + 1, b);
    let k = i + json_escape(b).len() + 2;
    lemma_parse_escaped(s, k + 2, value);
    assert(skip_ws(s, i) == i);
    assert(skip_ws(s, k) == k);
    assert(skip_ws(s, k + 1) == k + 1);
}

/// The number-valued member, whose name is field `c`.
#[verifier::spinoff_prover]
proof fn lemma_member_c_at(
    s: Seq<char>,
    i: int,
    a: Seq<char>,
    b: Seq<char>,
    c: Seq<char>,
    st: (Option<Seq<char>>, Option<Seq<char>>, Option<nat>),
    n: nat,
)
    requires
        0 <= i < s.len(),
        s[i] == '"',
        escaped_at(s, i + 1, c),
        c != a,
        c != b,
        st.2 is None,
        n <= u64::MAX,
        i + json_escape(c).len() + 2 < s.len(),
        s[i + json_escape(c).len() + 2] == ':',
        ({
            let m = i + json_escape(c).len() + 3;
            &&& m + dec_digits(n).len() < s.len()
            &&& s.subrange(m, m + dec_digits(n).len()) == dec_digits(n)
            &&& !is_digit(s[m + dec_digits(n).len()])
            &&& !is_ws(s[m])
            &&& s[m + dec_digits(n).len()] != '.'
            &&& s[m + dec_digits(n).len()] != 'e'
            &&& s[m + dec_digits(n).len()] != 'E'
        }),
    ensures
        parse_member_2s1n(s, i, a, b, c, st) == Some(
            ((st.0, st.1, Some(n)), i + json_escape(c).len() + dec_digits(n).len() + 3),
        ),
{
    lemma_parse_escaped(s, i + 1, c);
    let k = i + json_escape(c).len() + 2;
    lemma_parse_uint_at(s, k + 1, n);
    assert(skip_ws(s, i) == i);
    assert(skip_ws(s, k) == k);
    assert(skip_ws(s, k + 1) == k + 1);
}



/// The object parser, given the three member parses and the
/// punctuation around them.
#[verifier::spinoff_prover]
proof fn lemma_obj2_from_members(
    s: Seq<char>,
    a: Seq<char>,
    b: Seq<char>,
    c: Seq<char>,
    st1: (Option<Seq<char>>, Option<Seq<char>>, Option<nat>),
    st2: (Option<Seq<char>>, Option<Seq<char>>, Option<nat>),
    x: Seq<char>,
    y: Seq<char>,
    n: nat,
    e1: int,
    e2: int,
    e3: int,
)
    requires
        s.len() > 0,
        skip_ws(s, 0) == 0,
        s[0] == '{',
        parse_member_2s1n(
            s,
            1,
            a,
            b,
            c,
            (Option::<Seq<char>>::None, Option::<Seq<char>>::None, Option::<nat>::None),
        ) == Some((st1, e1)),
        0 <= e1 < s.len(),
        skip_ws(s, e1) == e1,
        s[e1] == ',',
        parse_member_2s1n(s, e1 + 1, a, b, c, st1) == Some((st2, e2)),
        0 <= e2 < s.len(),
        skip_ws(s, e2) == e2,
        s[e2] == ',',
        parse_member_2s1n(s, e2 + 1, a, b, c, st2) == Some(((Some(x), Some(y), Some(n)), e3)),
        0 <= e3 < s.len(),
        skip_ws(s, e3) == e3,
        s[e3] == '}',
        skip_ws(s, e3 + 1) == s.len(),
    ensures
        parse_obj_2s1n(s, a, b, c) == Some((x, y, n)),
{
}

/// The layout of the canonical upload intent: where member one, the
/// `path` field, sits.
#[verifier::rlimit(100)]
#[verifier::spinoff_prover]
proof fn lemma_upload_layout_a(path: Seq<char>, key: Seq<char>, fs: nat)
    ensures
        ({
            let s = spec_upload_intent_json(path, key, fs);
            let q1 = 9 + json_escape(path).len() as int;
            &&& s.len() == q1 + 9 + json_escape(key).len() + 18 + dec_digits(fs).len() + 1
            &&& s[0] == '{'
            &&& s[1] == '"'
            &&& escaped_at(s, 2, name_path())
            &&& s[7] == ':'
            &&& s[8] == '"'
            &&& escaped_at(s, 9, path)
        }),
{
    let s = spec_upload_intent_json(path, key, fs);
    let ep = json_escape(path);
    let l1 = seq!['{', '"', 'p', 'a', 't', 'h', '"', ':', '"'];
    let l2 = seq!['"', ',', '"', 'k', 'e', 'y', '"', ':', '"'];
    let p1 = l1 + ep;
    let p2 = p1 + l2;
    let p3 = p2 + json_escape(key);
    let p4 = p3 + seq![
        '"',
        ',',
        '"',
        'f',
        'r',
        'a',
        'g',
        'm',
        'e',
        'n',
        't',
        '_',
        's',
        'i',
        'z',
        'e',
        '"',
        ':',
    ];
    let p5 = p4 + dec_digits(fs);
    assert(s == p5 + seq!['}']);
    let q1 = 9 + ep.len() as int;
    assert forall|k: int| 0 <= k < 9 implies s[k] == l1[k] by {
        assert(s[k] == p5[k]);
        assert(p5[k] == p4[k]);
        assert(p4[k] == p3[k]);
        assert(p3[k] == p2[k]);
        assert(p2[k] == p1[k]);
        assert(p1[k] == l1[k]);
    }
    assert forall|k: int| 0 <= k < ep.len() implies s[9 + k] == ep[k] by {
        assert(s[9 + k] == p5[9 + k]);
        assert(p5[9 + k] == p4[9 + k]);
        assert(p4[9 + k] == p3[9 + k]);
        assert(p3[9 + k] == p2[9 + k]);
        assert(p2[9 + k] == p1[9 + k]);
        assert(p1[9 + k] == ep[k]);
    }
    assert(s[q1] == p2[q1] && p2[q1] == l2[0]) by {
        assert(s[q1] == p5[q1]);
        assert(p5[q1] == p4[q1]);
        assert(p4[q1] == p3[q1]);
        assert(p3[q1] == p2[q1]);
    }
    assert(forall|k: int| 0 <= k < name_path().len() ==> is_plain_char(#[trigger] name_path()[k]));
    lemma_escape_plain(name_path());
    assert(s.subrange(2, 6) =~= json_escape(name_path()));
    assert(escaped_at(s, 2, name_path()));
    assert(s.subrange(9, q1) =~= ep);
    assert(escaped_at(s, 9, path));
}

/// The layout of the canonical upload intent: where member two, the
/// `key` field, sits.
#[verifier::rlimit(100)]
#[verifier::spinoff_prover]
proof fn lemma_upload_layout_b(path: Seq<char>, key: Seq<char>, fs: nat)
    ensures
        ({
            let s = spec_upload_intent_json(path, key, fs);
            let q1 = 9 + json_escape(path).len() as int;
            let k0 = q1 + 9;
            &&& s[q1 + 1] == ','
            &&& s[q1 + 2] == '"'
            &&& escaped_at(s, q1 + 3, name_key())
            &&& s[q1 + 7] == ':'
            &&& s[q1 + 8] == '"'
            &&& escaped_at(s, k0, key)
        }),
{
    let s = spec_upload_intent_json(path, key, fs);
    let ep = json_escape(path);
    let ek = json_escape(key);
    let l1 = seq!['{', '"', 'p', 'a', 't', 'h', '"', ':', '"'];
    let l2 = seq!['"', ',', '"', 'k', 'e', 'y', '"', ':', '"'];
    let p1 = l1 + ep;
    let p2 = p1 + l2;
    let p3 = p2 + ek;
    let p4 = p3 + seq![
        '"',
        ',',
        '"',
        'f',
        'r',
        'a',
        'g',
        'm',
        'e',
        'n',
        't',
        '_',
        's',
        'i',
        'z',
        'e',
        '"',
        ':',
    ];
    let p5 = p4 + dec_digits(fs);
    assert(s == p5 + seq!['}']);
    let q1 = 9 + ep.len() as int;
    let k0 = q1 + 9;
    let q2 = k0 + ek.len();
    assert forall|k: int| 0 <= k < 9 implies s[q1 + k] == l2[k] by {
        assert(s[q1 + k] == p5[q1 + k]);
        assert(p5[q1 + k] == p4[q1 + k]);
        assert(p4[q1 + k] == p3[q1 + k]);
        assert(p3[q1 + k] == p2[q1 + k]);
        assert(p2[q1 + k] == l2[k]);
    }
    assert forall|k: int| 0 <= k < ek.len() implies s[k0 + k] == ek[k] by {
        assert(s[k0 + k] == p5[k0 + k]);
        assert(p5[k0 + k] == p4[k0 + k]);
        assert(p4[k0 + k] == p3[k0 + k]);
        assert(p3[k0 + k] == ek[k]);
    }
    assert(s[q2] == p4[q2]) by {
        assert(s[q2] == p5[q2]);
        assert(p5[q2] == p4[q2]);
    }
    assert(forall|k: int| 0 <= k < name_key().len() ==> is_plain_char(#[trigger] name_key()[k]));
    lemma_escape_plain(name_key());
    assert(s.subrange(q1 + 3, q1 + 6) =~= json_escape(name_key()));
    assert(escaped_at(s, q1 + 3, name_key()));
    assert(s.subrange(k0, q2) =~= ek);
    assert(escaped_at(s, k0, key));
}

/// The layout of the canonical upload intent: where member three, the
/// `fragment_size` field, its number, and the closing brace sit.
#[verifier::rlimit(100)]
#[verifier::spinoff_prover]
proof fn lemma_upload_layout_c(path: Seq<char>, key: Seq<char>, fs: nat)
    ensures
        ({
            let s = spec_upload_intent_json(path, key, fs);
            let q2 = 9 + json_escape(path).len() + 9 + json_escape(key).len() as int;
            let n0 = q2 + 18;
            let z = n0 + dec_digits(fs).len() as int;
            &&& s[q2 + 1] == ','
            &&& s[q2 + 2] == '"'
            &&& escaped_at(s, q2 + 3, name_fragment_size())
            &&& s[q2 + 17] == ':'
            &&& s.subrange(n0, z) == dec_digits(fs)
            &&& !is_ws(s[n0])
            &&& s[z] == '}'
            &&& !is_digit(s[z])
            &&& z + 1 == s.len()
        }),
{
    let s = spec_upload_intent_json(path, key, fs);
    let ep = json_escape(path);
    let ek = json_escape(key);
    let dn = dec_digits(fs);
    let l3 = seq![
        '"',
        ',',
        '"',
        'f',
        'r',
        'a',
        'g',
        'm',
        'e',
        'n',
        't',
        '_',
        's',
        'i',
        'z',
        'e',
        '"',
        ':',
    ];
    let p1 = seq!['{', '"', 'p', 'a', 't', 'h', '"', ':', '"'] + ep;
    let p2 = p1 + seq!['"', ',', '"', 'k', 'e', 'y', '"', ':', '"'];
    let p3 = p2 + ek;
    let p4 = p3 + l3;
    let p5 = p4 + dn;
    assert(s == p5 + seq!['}']);
    let q2 = 18 + ep.len() + ek.len() as int;
    let n0 = q2 + 18;
    let z = n0 + dn.len();
    assert forall|k: int| 0 <= k < 18 implies s[q2 + k] == l3[k] by {
        assert(s[q2 + k] == p5[q2 + k]);
        assert(p5[q2 + k] == p4[q2 + k]);
        assert(p4[q2 + k] == l3[k]);
    }
    assert forall|k: int| 0 <= k < dn.len() implies s[n0 + k] == dn[k] by {
        assert(s[n0 + k] == p5[n0 + k]);
        assert(p5[n0 + k] == dn[k]);
    }
    assert(s[z] == '}');
    assert(forall|k: int|
        0 <= k < name_fragment_size().len() ==> is_plain_char(#[trigger] name_fragment_size()[k]));
    lemma_escape_plain(name_fragment_size());
    assert(s.subrange(q2 + 3, q2 + 16) =~= json_escape(name_fragment_size()));
    assert(escaped_at(s, q2 + 3, name_fragment_size()));
    assert(s.subrange(n0, z) =~= dn);
    crate::strnum::lemma_dec_digits_shape(fs);
    assert(is_digit(dn[0]) && s[n0] == dn[0]);
}

/// Round trip: the decoder accepts every canonically encoded upload
/// intent and returns exactly its fields.  With the contracts of
/// `encode_upload_intent` and `decode_upload_intent` this says that
/// decoding an encoded upload intent gives the intent back.
#[verifier::rlimit(100)]
#[verifier::spinoff_prover]
pub proof fn lemma_upload_intent_roundtrip(path: Seq<char>, key: Seq<char>, fs: nat)
    requires
        fs <= usize::MAX,
    ensures
        spec_decode_upload(spec_upload_intent_json(path, key, fs)) == Some((path, key, fs)),
{
    let s = spec_upload_intent_json(path, key, fs);
    let q1 = 9 + json_escape(path).len() as int;
    let k0 = q1 + 9;
    let q2 = k0 + json_escape(key).len();
    let n0 = q2 + 18;
    let z = n0 + dec_digits(fs).len();
    lemma_upload_layout_a(path, key, fs);
    lemma_upload_layout_b(path, key, fs);
    lemma_upload_layout_c(path, key, fs);
    assert(forall|k: int| 0 <= k < name_path().len() ==> is_plain_char(#[trigger] name_path()[k]));
    assert(forall|k: int| 0 <= k < name_key().len() ==> is_plain_char(#[trigger] name_key()[k]));
    assert(forall|k: int|
        0 <= k < name_fragment_size().len() ==> is_plain_char(#[trigger] name_fragment_size()[k]));
    lemma_escape_plain(name_path());
    lemma_escape_plain(name_key());
    lemma_escape_plain(name_fragment_size());
    assert(json_escape(name_path()).len() == 4);
    assert(json_escape(name_key()).len() == 3);
    assert(json_escape(name_fragment_size()).len() == 13);
    assert(name_path() != name_key());
    assert(name_path() != name_fragment_size());
    assert(name_key() != name_fragment_size());
    crate::strnum::lemma_dec_digits_shape(fs);
    crate::strnum::lemma_dec_roundtrip(fs);

    let st0 = (Option::<Seq<char>>::None, Option::<Seq<char>>::None, Option::<nat>::None);
    lemma_member_a_at(s, 1, name_path(), name_key(), name_fragment_size(), st0, path);
    let st1 = (Some(path), Option::<Seq<char>>::None, Option::<nat>::None);
    lemma_member_b_at(s, q1 + 2, name_path(), name_key(), name_fragment_size(), st1, key);
    let st2 = (Some(path), Some(key), Option::<nat>::None);
    lemma_member_c_at(s, q2 + 2, name_path(), name_key(), name_fragment_size(), st2, fs);

    assert(skip_ws(s, 0) == 0);
    assert(skip_ws(s, q1 + 1) == q1 + 1);
    assert(skip_ws(s, q2 + 1) == q2 + 1);
    assert(skip_ws(s, z) == z);
    assert(skip_ws(s, z + 1) == z + 1);
    lemma_obj2_from_members(
        s,
        name_path(),
        name_key(),
        name_fragment_size(),
        st1,
        st2,
        path,
        key,
        fs,
        q1 + 1,
        q2 + 1,
        z,
    );
}

/// The layout of the canonical download intent: where member one, the
/// `key` field, sits.
#[verifier::rlimit(100)]
#[verifier::spinoff_prover]
proof fn lemma_download_layout_a(key: Seq<char>, path: Seq<char>, pace: nat)
    ensures
        ({
            let s = spec_download_intent_json(key, path, pace);
            let q1 = 8 + json_escape(key).len() as int;
            &&& s.len() == q1 + 10 + json_escape(path).len() + 9 + dec_digits(pace).len() + 1
            &&& s[0] == '{'
            &&& s[1] == '"'
            &&& escaped_at(s, 2, name_key())
            &&& s[6] == ':'
            &&& s[7] == '"'
            &&& escaped_at(s, 8, key)
        }),
{
    let s = spec_download_intent_json(key, path, pace);
    let ek = json_escape(key);
    let l1 = seq!['{', '"', 'k', 'e', 'y', '"', ':', '"'];
    let l2 = seq!['"', ',', '"', 'p', 'a', 't', 'h', '"', ':', '"'];
    let p1 = l1 + ek;
    let p2 = p1 + l2;
    let p3 = p2 + json_escape(path);
    let p4 = p3 + seq!['"', ',', '"', 'p', 'a', 'c', 'e', '"', ':'];
    let p5 = p4 + dec_digits(pace);
    assert(s == p5 + seq!['}']);
    let q1 = 8 + ek.len() as int;
    assert forall|k: int| 0 <= k < 8 implies s[k] == l1[k] by {
        assert(s[k] == p5[k]);
        assert(p5[k] == p4[k]);
        assert(p4[k] == p3[k]);
        assert(p3[k] == p2[k]);
        assert(p2[k] == p1[k]);
        assert(p1[k] == l1[k]);
    }
    assert forall|k: int| 0 <= k < ek.len() implies s[8 + k] == ek[k] by {
        assert(s[8 + k] == p5[8 + k]);
        assert(p5[8 + k] == p4[8 + k]);
        assert(p4[8 + k] == p3[8 + k]);
        assert(p3[8 + k] == p2[8 + k]);
        assert(p2[8 + k] == p1[8 + k]);
        assert(p1[8 + k] == ek[k]);
    }
    assert(s[q1] == p2[q1] && p2[q1] == l2[0]) by {
        assert(s[q1] == p5[q1]);
        assert(p5[q1] == p4[q1]);
        assert(p4[q1] == p3[q1]);
        assert(p3[q1] == p2[q1]);
    }
    assert(forall|k: int| 0 <= k < name_key().len() ==> is_plain_char(#[trigger] name_key()[k]));
    lemma_escape_plain(name_key());
    assert(s.subrange(2, 5) =~= json_escape(name_key()));
    assert(escaped_at(s, 2, name_key()));
    assert(s.subrange(8, q1) =~= ek);
    assert(escaped_at(s, 8, key));
}

/// The layout of the canonical download intent: where member two, the
/// `path` field, sits.
#[verifier::rlimit(100)]
#[verifier::spinoff_prover]
proof fn lemma_download_layout_b(key: Seq<char>, path: Seq<char>, pace: nat)
    ensures
        ({
            let s = spec_download_intent_json(key, path, pace);
            let q1 = 8 + json_escape(key).len() as int;
            let k0 = q1 + 10;
            &&& s[q1 + 1] == ','
            &&& s[q1 + 2] == '"'
            &&& escaped_at(s, q1 + 3, name_path())
            &&& s[q1 + 8] == ':'
            &&& s[q1 + 9] == '"'
            &&& escaped_at(s, k0, path)
        }),
{
    let s = spec_download_intent_json(key, path, pace);
    let ek = json_escape(key);
    let ep = json_escape(path);
    let l2 = seq!['"', ',', '"', 'p', 'a', 't', 'h', '"', ':', '"'];
    let p1 = seq!['{', '"', 'k', 'e', 'y', '"', ':', '"'] + ek;
    let p2 = p1 + l2;
    let p3 = p2 + ep;
    let p4 = p3 + seq!['"', ',', '"', 'p', 'a', 'c', 'e', '"', ':'];
    let p5 = p4 + dec_digits(pace);
    assert(s == p5 + seq!['}']);
    let q1 = 8 + ek.len() as int;
    let k0 = q1 + 10;
    let q2 = k0 + ep.len();
    assert forall|k: int| 0 <= k < 10 implies s[q1 + k] == l2[k] by {
        assert(s[q1 + k] == p5[q1 + k]);
        assert(p5[q1 + k] == p4[q1 + k]);
        assert(p4[q1 + k] == p3[q1 + k]);
        assert(p3[q1 + k] == p2[q1 + k]);
        assert(p2[q1 + k] == l2[k]);
    }
    assert forall|k: int| 0 <= k < ep.len() implies s[k0 + k] == ep[k] by {
        assert(s[k0 + k] == p5[k0 + k]);
        assert(p5[k0 + k] == p4[k0 + k]);
        assert(p4[k0 + k] == p3[k0 + k]);
        assert(p3[k0 + k] == ep[k]);
    }
    assert(s[q2] == p4[q2]) by {
        assert(s[q2] == p5[q2]);
        assert(p5[q2] == p4[q2]);
    }
    assert(forall|k: int| 0 <= k < name_path().len() ==> is_plain_char(#[trigger] name_path()[k]));
    lemma_escape_plain(name_path());
    assert(s.subrange(q1 + 3, q1 + 7) =~= json_escape(name_path()));
    assert(escaped_at(s, q1 + 3, name_path()));
    assert(s.subrange(k0, q2) =~= ep);
    assert(escaped_at(s, k0, path));
}

/// The layout of the canonical download intent: where member three,
/// the `pace` field, its number, and the closing brace sit.
#[verifier::rlimit(100)]
#[verifier::spinoff_prover]
proof fn lemma_download_layout_c(key: Seq<char>, path: Seq<char>, pace: nat)
    ensures
        ({
            let s = spec_download_intent_json(key, path, pace);
            let q2 = 8 + json_escape(key).len() + 10 + json_escape(path).len() as int;
            let n0 = q2 + 9;
            let z = n0 + dec_digits(pace).len() as int;
            &&& s[q2 + 1] == ','
            &&& s[q2 + 2] == '"'
            &&& escaped_at(s, q2 + 3, name_pace())
            &&& s[q2 + 8] == ':'
            &&& s.subrange(n0, z) == dec_digits(pace)
            &&& !is_ws(s[n0])
            &&& s[z] == '}'
            &&& !is_digit(s[z])
            &&& z + 1 == s.len()
        }),
{
    let s = spec_download_intent_json(key, path, pace);
    let ek = json_escape(key);
    let ep = json_escape(path);
    let dn = dec_digits(pace);
    let l3 = seq!['"', ',', '"', 'p', 'a', 'c', 'e', '"', ':'];
    let p1 = seq!['{', '"', 'k', 'e', 'y', '"', ':', '"'] + ek;
    let p2 = p1 + seq!['"', ',', '"', 'p', 'a', 't', 'h', '"', ':', '"'];
    let p3 = p2 + ep;
    let p4 = p3 + l3;
    let p5 = p4 + dn;
    assert(s == p5 + seq!['}']);
    let q2 = 18 + ek.len() + ep.len() as int;
    let n0 = q2 + 9;
    let z = n0 + dn.len();
    assert forall|k: int| 0 <= k < 9 implies s[q2 + k] == l3[k] by {
        assert(s[q2 + k] == p5[q2 + k]);
        assert(p5[q2 + k] == p4[q2 + k]);
        assert(p4[q2 + k] == l3[k]);
    }
    assert forall|k: int| 0 <= k < dn.len() implies s[n0 + k] == dn[k] by {
        assert(s[n0 + k] == p5[n0 + k]);
        assert(p5[n0 + k] == dn[k]);
    }
    assert(s[z] == '}');
    assert(forall|k: int| 0 <= k < name_pace().len() ==> is_plain_char(#[trigger] name_pace()[k]));
    lemma_escape_plain(name_pace());
    assert(s.subrange(q2 + 3, q2 + 7) =~= json_escape(name_pace()));
    assert(escaped_at(s, q2 + 3, name_pace()));
    assert(s.subrange(n0, z) =~= dn);
    crate::strnum::lemma_dec_digits_shape(pace);
    assert(is_digit(dn[0]) && s[n0] == dn[0]);
}

/// Round trip: the decoder accepts every canonically encoded download
/// intent and returns exactly its fields.  With the contracts of
/// `encode_download_intent` and `decode_download_intent` this says
/// that decoding an encoded download intent gives the intent back.
#[verifier::rlimit(100)]
#[verifier::spinoff_prover]
pub proof fn lemma_download_intent_roundtrip(key: Seq<char>, path: Seq<char>, pace: nat)
    requires
        pace <= usize::MAX,
    ensures
        spec_decode_download(spec_download_intent_json(key, path, pace)) == Some(
            (key, path, pace),
        ),
{
    let s = spec_download_intent_json(key, path, pace);
    let q1 = 8 + json_escape(key).len() as int;
    let k0 = q1 + 10;
    let q2 = k0 + json_escape(path).len();
    let n0 = q2 + 9;
    let z = n0 + dec_digits(pace).len();
    lemma_download_layout_a(key, path, pace);
    lemma_download_layout_b(key, path, pace);
    lemma_download_layout_c(key, path, pace);
    assert(forall|k: int| 0 <= k < name_path().len() ==> is_plain_char(#[trigger] name_path()[k]));
    assert(forall|k: int| 0 <= k < name_key().len() ==> is_plain_char(#[trigger] name_key()[k]));
    assert(forall|k: int| 0 <= k < name_pace().len() ==> is_plain_char(#[trigger] name_pace()[k]));
    lemma_escape_plain(name_path());
    lemma_escape_plain(name_key());
    lemma_escape_plain(name_pace());
    assert(json_escape(name_path()).len() == 4);
    assert(json_escape(name_key()).len() == 3);
    assert(json_escape(name_pace()).len() == 4);
    assert(name_key() != name_path());
    assert(name_key() != name_pace());
    assert(name_path() != name_pace());
    crate::strnum::lemma_dec_digits_shape(pace);
    crate::strnum::lemma_dec_roundtrip(pace);

    let st0 = (Option::<Seq<char>>::None, Option::<Seq<char>>::None, Option::<nat>::None);
    lemma_member_a_at(s, 1, name_key(), name_path(), name_pace(), st0, key);
    let st1 = (Some(key), Option::<Seq<char>>::None, Option::<nat>::None);
    lemma_member_b_at(s, q1 + 2, name_key(), name_path(), name_pace(), st1, path);
    let st2 = (Some(key), Some(path), Option::<nat>::None);
    lemma_member_c_at(s, q2 + 2, name_key(), name_path(), name_pace(), st2, pace);

    assert(skip_ws(s, 0) == 0);
    assert(skip_ws(s, q1 + 1) == q1 + 1);
    assert(skip_ws(s, q2 + 1) == q2 + 1);
    assert(skip_ws(s, z) == z);
    assert(skip_ws(s, z + 1) == z + 1);
    lemma_obj2_from_members(
        s,
        name_key(),
        name_path(),
        name_pace(),
        st1,
        st2,
        key,
        path,
        pace,
        q1 + 1,
        q2 + 1,
        z,
    );
}

/// The digest's string member, whose name is field `a`.
#[verifier::spinoff_prover]
proof fn lemma_member5_a_at(
    s: Seq<char>,
    i: int,
    a: Seq<char>,
    n1: Seq<char>,
    n2: Seq<char>,
    n3: Seq<char>,
    n4: Seq<char>,
    st: (Option<Seq<char>>, Option<nat>, Option<nat>, Option<nat>, Option<nat>),
    value: Seq<char>,
)
    requires
        0 <= i < s.len(),
        s[i] == '"',
        escaped_at(s, i + 1, a),
        st.0 is None,
        i + json_escape(a).len() + 3 < s.len(),
        s[i + json_escape(a).len() + 2] == ':',
        s[i + json_escape(a).len() + 3] == '"',
        escaped_at(s, i + json_escape(a).len() + 4, value),
    ensures
        parse_member_1s4n(s, i, a, n1, n2, n3, n4, st) == Some(
            (
                (Some(value), st.1, st.2, st.3, st.4),
                i + json_escape(a).len() + json_escape(value).len() + 5,
            ),
        ),
{
    lemma_parse_escaped(s, i + 1, a);
    let k = i + json_escape(a).len() + 2;
    lemma_parse_escaped(s, k + 2, value);
    assert(skip_ws(s, i) == i);
    assert(skip_ws(s, k) == k);
    assert(skip_ws(s, k + 1) == k + 1);
}

/// A number member of the digest: `which` slot (1 to 4) holds the
/// parsed value; `name` is that slot's field name, distinct from every
/// name tried before it.
#[verifier::spinoff_prover]
proof fn lemma_member5_num_at(
    s: Seq<char>,
    i: int,
    a: Seq<char>,
    n1: Seq<char>,
    n2: Seq<char>,
    n3: Seq<char>,
    n4: Seq<char>,
    st: (Option<Seq<char>>, Option<nat>, Option<nat>, Option<nat>, Option<nat>),
    name: Seq<char>,
    which: int,
    n: nat,
)
    requires
        0 <= i < s.len(),
        s[i] == '"',
        escaped_at(s, i + 1, name),
        name != a,
        1 <= which <= 4,
        which == 1 ==> name == n1 && st.1 is None,
        which == 2 ==> name != n1 && name == n2 && st.2 is None,
        which == 3 ==> name != n1 && name != n2 && name == n3 && st.3 is None,
        which == 4 ==> name != n1 && name != n2 && name != n3 && name == n4 && st.4 is None,
        n <= u64::MAX,
        i + json_escape(name).len() + 2 < s.len(),
        s[i + json_escape(name).len() + 2] == ':',
        ({
            let m = i + json_escape(name).len() + 3;
            &&& m + dec_digits(n).len() < s.len()
            &&& s.subrange(m, m + dec_digits(n).len()) == dec_digits(n)
            &&& !is_digit(s[m + dec_digits(n).len()])
            &&& !is_ws(s[m])
            &&& s[m + dec_digits(n).len()] != '.'
            &&& s[m + dec_digits(n).len()] != 'e'
            &&& s[m + dec_digits(n).len()] != 'E'
        }),
    ensures
        parse_member_1s4n(s, i, a, n1, n2, n3, n4, st) == Some(
            (
                (
                    st.0,
                    if which == 1 {
                        Some(n)
                    } else {
                        st.1
                    },
                    if which == 2 {
                        Some(n)
                    } else {
                        st.2
                    },
                    if which == 3 {
                        Some(n)
                    } else {
                        st.3
                    },
                    if which == 4 {
                        Some(n)
                    } else {
                        st.4
                    },
                ),
                i + json_escape(name).len() + dec_digits(n).len() + 3,
            ),
        ),
{
    lemma_parse_escaped(s, i + 1, name);
    let k = i + json_escape(name).len() + 2;
    lemma_parse_uint_at(s, k + 1, n);
    assert(skip_ws(s, i) == i);
    assert(skip_ws(s, k) == k);
    assert(skip_ws(s, k + 1) == k + 1);
}

/// The digest object parser, given the five member parses and the
/// punctuation around them.
#[verifier::spinoff_prover]
proof fn lemma_obj5_from_members(
    s: Seq<char>,
    a: Seq<char>,
    n1: Seq<char>,
    n2: Seq<char>,
    n3: Seq<char>,
    n4: Seq<char>,
    st1: (Option<Seq<char>>, Option<nat>, Option<nat>, Option<nat>, Option<nat>),
    st2: (Option<Seq<char>>, Option<nat>, Option<nat>, Option<nat>, Option<nat>),
    st3: (Option<Seq<char>>, Option<nat>, Option<nat>, Option<nat>, Option<nat>),
    st4: (Option<Seq<char>>, Option<nat>, Option<nat>, Option<nat>, Option<nat>),
    x: Seq<char>,
    v1: nat,
    v2: nat,
    v3: nat,
    v4: nat,
    e1: int,
    e2: int,
    e3: int,
    e4: int,
    e5: int,
)
    requires
        s.len() > 0,
        skip_ws(s, 0) == 0,
        s[0] == '{',
        parse_member_1s4n(
            s,
            1,
            a,
            n1,
            n2,
            n3,
            n4,
            (
                Option::<Seq<char>>::None,
                Option::<nat>::None,
                Option::<nat>::None,
                Option::<nat>::None,
                Option::<nat>::None,
            ),
        ) == Some((st1, e1)),
        0 <= e1 < s.len(),
        skip_ws(s, e1) == e1,
        s[e1] == ',',
        parse_member_1s4n(s, e1 + 1, a, n1, n2, n3, n4, st1) == Some((st2, e2)),
        0 <= e2 < s.len(),
        skip_ws(s, e2) == e2,
        s[e2] == ',',
        parse_member_1s4n(s, e2 + 1, a, n1, n2, n3, n4, st2) == Some((st3, e3)),
        0 <= e3 < s.len(),
        skip_ws(s, e3) == e3,
        s[e3] == ',',
        parse_member_1s4n(s, e3 + 1, a, n1, n2, n3, n4, st3) == Some((st4, e4)),
        0 <= e4 < s.len(),
        skip_ws(s, e4) == e4,
        s[e4] == ',',
        parse_member_1s4n(s, e4 + 1, a, n1, n2, n3, n4, st4) == Some(
            ((Some(x), Some(v1), Some(v2), Some(v3), Some(v4)), e5),
        ),
        0 <= e5 < s.len(),
        skip_ws(s, e5) == e5,
        s[e5] == '}',
        skip_ws(s, e5 + 1) == s.len(),
    ensures
        parse_obj_1s4n(s, a, n1, n2, n3, n4) == Some((x, v1, v2, v3, v4)),
{
}

/// The layout of the canonical digest: where the `name` member sits.
#[verifier::rlimit(100)]
#[verifier::spinoff_prover]
proof fn lemma_digest_layout_a(name: Seq<char>, size: nat, crc: nat, fs: nat, fr: nat)
    ensures
        ({
            let s = spec_digest_json(name, size, crc, fs, fr);
            let q1 = 9 + json_escape(name).len() as int;
            &&& s.len() == q1 + 9 + dec_digits(size).len() + 7 + dec_digits(crc).len() + 17
                + dec_digits(fs).len() + 13 + dec_digits(fr).len() + 1
            &&& s[0] == '{'
            &&& s[1] == '"'
            &&& escaped_at(s, 2, name_name())
            &&& s[7] == ':'
            &&& s[8] == '"'
            &&& escaped_at(s, 9, name)
        }),
{
    let s = spec_digest_json(name, size, crc, fs, fr);
    let en = json_escape(name);
    let l1 = seq!['{', '"', 'n', 'a', 'm', 'e', '"', ':', '"'];
    let l2 = seq!['"', ',', '"', 's', 'i', 'z', 'e', '"', ':'];
    let p1 = l1 + en;
    let p2 = p1 + l2;
    let p3 = p2 + dec_digits(size);
    let p4 = p3 + seq![',', '"', 'c', 'r', 'c', '"', ':'];
    let p5 = p4 + dec_digits(crc);
    let p6 = p5 + seq![
        ',',
        '"',
        'f',
        'r',
        'a',
        'g',
        'm',
        'e',
        'n',
        't',
        '_',
        's',
        'i',
        'z',
        'e',
        '"',
        ':',
    ];
    let p7 = p6 + dec_digits(fs);
    let p8 = p7 + seq![',', '"', 'f', 'r', 'a', 'g', 'm', 'e', 'n', 't', 's', '"', ':'];
    let p9 = p8 + dec_digits(fr);
    assert(s == p9 + seq!['}']);
    let q1 = 9 + en.len() as int;
    assert forall|k: int| 0 <= k < 9 implies s[k] == l1[k] by {
        assert(s[k] == p9[k]);
        assert(p9[k] == p8[k]);
        assert(p8[k] == p7[k]);
        assert(p7[k] == p6[k]);
        assert(p6[k] == p5[k]);
        assert(p5[k] == p4[k]);
        assert(p4[k] == p3[k]);
        assert(p3[k] == p2[k]);
        assert(p2[k] == p1[k]);
        assert(p1[k] == l1[k]);
    }
    assert forall|k: int| 0 <= k < en.len() implies s[9 + k] == en[k] by {
        assert(s[9 + k] == p9[9 + k]);
        assert(p9[9 + k] == p8[9 + k]);
        assert(p8[9 + k] == p7[9 + k]);
        assert(p7[9 + k] == p6[9 + k]);
        assert(p6[9 + k] == p5[9 + k]);
        assert(p5[9 + k] == p4[9 + k]);
        assert(p4[9 + k] == p3[9 + k]);
        assert(p3[9 + k] == p2[9 + k]);
        assert(p2[9 + k] == p1[9 + k]);
        assert(p1[9 + k] == en[k]);
    }
    assert(s[q1] == l2[0]) by {
        assert(s[q1] == p9[q1]);
        assert(p9[q1] == p8[q1]);
        assert(p8[q1] == p7[q1]);
        assert(p7[q1] == p6[q1]);
        assert(p6[q1] == p5[q1]);
        assert(p5[q1] == p4[q1]);
        assert(p4[q1] == p3[q1]);
        assert(p3[q1] == p2[q1]);
        assert(p2[q1] == l2[0]);
    }
    assert(forall|k: int| 0 <= k < name_name().len() ==> is_plain_char(#[trigger] name_name()[k]));
    lemma_escape_plain(name_name());
    assert(s.subrange(2, 6) =~= json_escape(name_name()));
    assert(escaped_at(s, 2, name_name()));
    assert(s.subrange(9, q1) =~= en);
    assert(escaped_at(s, 9, name));
}

/// The layout of one numeric digest member: the segment literal `ln`
/// sits at `q`, its digits `dv` follow, and the next separator closes
/// them.  `off` is where the member's name starts inside `ln`.
#[verifier::rlimit(100)]
#[verifier::spinoff_prover]
proof fn lemma_digest_layout_num(
    name: Seq<char>,
    size: nat,
    crc: nat,
    fs: nat,
    fr: nat,
    which: int,
)
    requires
        1 <= which <= 4,
    ensures
        ({
            let s = spec_digest_json(name, size, crc, fs, fr);
            let q1 = 9 + json_escape(name).len() as int;
            let q2 = q1 + 9 + dec_digits(size).len();
            let q3 = q2 + 7 + dec_digits(crc).len();
            let q4 = q3 + 17 + dec_digits(fs).len();
            let z = q4 + 13 + dec_digits(fr).len();
            &&& (which == 1 ==> {
                &&& s[q1 + 1] == ','
                &&& s[q1 + 2] == '"'
                &&& escaped_at(s, q1 + 3, name_size())
                &&& s[q1 + 8] == ':'
                &&& s.subrange(q1 + 9, q2) == dec_digits(size)
                &&& !is_ws(s[q1 + 9])
                &&& s[q2] == ','
                &&& !is_digit(s[q2])
            })
            &&& (which == 2 ==> {
                &&& s[q2 + 1] == '"'
                &&& escaped_at(s, q2 + 2, name_crc())
                &&& s[q2 + 6] == ':'
                &&& s.subrange(q2 + 7, q3) == dec_digits(crc)
                &&& !is_ws(s[q2 + 7])
                &&& s[q3] == ','
                &&& !is_digit(s[q3])
            })
            &&& (which == 3 ==> {
                &&& s[q3 + 1] == '"'
                &&& escaped_at(s, q3 + 2, name_fragment_size())
                &&& s[q3 + 16] == ':'
                &&& s.subrange(q3 + 17, q4) == dec_digits(fs)
                &&& !is_ws(s[q3 + 17])
                &&& s[q4] == ','
                &&& !is_digit(s[q4])
            })
            &&& (which == 4 ==> {
                &&& s[q4 + 1] == '"'
                &&& escaped_at(s, q4 + 2, name_fragments())
                &&& s[q4 + 12] == ':'
                &&& s.subrange(q4 + 13, z) == dec_digits(fr)
                &&& !is_ws(s[q4 + 13])
                &&& s[z] == '}'
                &&& !is_digit(s[z])
                &&& z + 1 == s.len()
            })
        }),
{
    let s = spec_digest_json(name, size, crc, fs, fr);
    let en = json_escape(name);
    let l2 = seq!['"', ',', '"', 's', 'i', 'z', 'e', '"', ':'];
    let l3 = seq![',', '"', 'c', 'r', 'c', '"', ':'];
    let l4 = seq![
        ',',
        '"',
        'f',
        'r',
        'a',
        'g',
        'm',
        'e',
        'n',
        't',
        '_',
        's',
        'i',
        'z',
        'e',
        '"',
        ':',
    ];
    let l5 = seq![',', '"', 'f', 'r', 'a', 'g', 'm', 'e', 'n', 't', 's', '"', ':'];
    let p1 = seq!['{', '"', 'n', 'a', 'm', 'e', '"', ':', '"'] + en;
    let p2 = p1 + l2;
    let p3 = p2 + dec_digits(size);
    let p4 = p3 + l3;
    let p5 = p4 + dec_digits(crc);
    let p6 = p5 + l4;
    let p7 = p6 + dec_digits(fs);
    let p8 = p7 + l5;
    let p9 = p8 + dec_digits(fr);
    assert(s == p9 + seq!['}']);
    let q1 = 9 + en.len() as int;
    let q2 = q1 + 9 + dec_digits(size).len();
    let q3 = q2 + 7 + dec_digits(crc).len();
    let q4 = q3 + 17 + dec_digits(fs).len();
    let z = q4 + 13 + dec_digits(fr).len();
    assert forall|k: int| 0 <= k < 9 implies s[q1 + k] == l2[k] by {
        assert(s[q1 + k] == p9[q1 + k]);
        assert(p9[q1 + k] == p8[q1 + k]);
        assert(p8[q1 + k] == p7[q1 + k]);
        assert(p7[q1 + k] == p6[q1 + k]);
        assert(p6[q1 + k] == p5[q1 + k]);
        assert(p5[q1 + k] == p4[q1 + k]);
        assert(p4[q1 + k] == p3[q1 + k]);
        assert(p3[q1 + k] == p2[q1 + k]);
        assert(p2[q1 + k] == l2[k]);
    }
    assert forall|k: int| 0 <= k < dec_digits(size).len() implies s[q1 + 9 + k] == dec_digits(
        size,
    )[k] by {
        assert(s[q1 + 9 + k] == p9[q1 + 9 + k]);
        assert(p9[q1 + 9 + k] == p8[q1 + 9 + k]);
        assert(p8[q1 + 9 + k] == p7[q1 + 9 + k]);
        assert(p7[q1 + 9 + k] == p6[q1 + 9 + k]);
        assert(p6[q1 + 9 + k] == p5[q1 + 9 + k]);
        assert(p5[q1 + 9 + k] == p4[q1 + 9 + k]);
        assert(p4[q1 + 9 + k] == p3[q1 + 9 + k]);
        assert(p3[q1 + 9 + k] == dec_digits(size)[k]);
    }
    assert forall|k: int| 0 <= k < 7 implies s[q2 + k] == l3[k] by {
        assert(s[q2 + k] == p9[q2 + k]);
        assert(p9[q2 + k] == p8[q2 + k]);
        assert(p8[q2 + k] == p7[q2 + k]);
        assert(p7[q2 + k] == p6[q2 + k]);
        assert(p6[q2 + k] == p5[q2 + k]);
        assert(p5[q2 + k] == p4[q2 + k]);
        assert(p4[q2 + k] == l3[k]);
    }
    assert forall|k: int| 0 <= k < dec_digits(crc).len() implies s[q2 + 7 + k] == dec_digits(
        crc,
    )[k] by {
        assert(s[q2 + 7 + k] == p9[q2 + 7 + k]);
        assert(p9[q2 + 7 + k] == p8[q2 + 7 + k]);
        assert(p8[q2 + 7 + k] == p7[q2 + 7 + k]);
        assert(p7[q2 + 7 + k] == p6[q2 + 7 + k]);
        assert(p6[q2 + 7 + k] == p5[q2 + 7 + k]);
        assert(p5[q2 + 7 + k] == dec_digits(crc)[k]);
    }
    assert forall|k: int| 0 <= k < 17 implies s[q3 + k] == l4[k] by {
        assert(s[q3 + k] == p9[q3 + k]);
        assert(p9[q3 + k] == p8[q3 + k]);
        assert(p8[q3 + k] == p7[q3 + k]);
        assert(p7[q3 + k] == p6[q3 + k]);
        assert(p6[q3 + k] == l4[k]);
    }
    assert forall|k: int| 0 <= k < dec_digits(fs).len() implies s[q3 + 17 + k] == dec_digits(
        fs,
    )[k] by {
        assert(s[q3 + 17 + k] == p9[q3 + 17 + k]);
        assert(p9[q3 + 17 + k] == p8[q3 + 17 + k]);
        assert(p8[q3 + 17 + k] == p7[q3 + 17 + k]);
        assert(p7[q3 + 17 + k] == dec_digits(fs)[k]);
    }
    assert forall|k: int| 0 <= k < 13 implies s[q4 + k] == l5[k] by {
        assert(s[q4 + k] == p9[q4 + k]);
        assert(p9[q4 + k] == p8[q4 + k]);
        assert(p8[q4 + k] == l5[k]);
    }
    assert forall|k: int| 0 <= k < dec_digits(fr).len() implies s[q4 + 13 + k] == dec_digits(
        fr,
    )[k] by {
        assert(s[q4 + 13 + k] == p9[q4 + 13 + k]);
        assert(p9[q4 + 13 + k] == dec_digits(fr)[k]);
    }
    assert(s[z] == '}');
    if which == 1 {
        assert(forall|k: int|
            0 <= k < name_size().len() ==> is_plain_char(#[trigger] name_size()[k]));
        lemma_escape_plain(name_size());
        assert(s.subrange(q1 + 3, q1 + 7) =~= json_escape(name_size()));
        assert(escaped_at(s, q1 + 3, name_size()));
        assert(s.subrange(q1 + 9, q2) =~= dec_digits(size));
        crate::strnum::lemma_dec_digits_shape(size);
        assert(is_digit(dec_digits(size)[0]) && s[q1 + 9] == dec_digits(size)[0]);
    } else if which == 2 {
        assert(forall|k: int|
            0 <= k < name_crc().len() ==> is_plain_char(#[trigger] name_crc()[k]));
        lemma_escape_plain(name_crc());
        assert(s.subrange(q2 + 2, q2 + 5) =~= json_escape(name_crc()));
        assert(escaped_at(s, q2 + 2, name_crc()));
        assert(s.subrange(q2 + 7, q3) =~= dec_digits(crc));
        crate::strnum::lemma_dec_digits_shape(crc);
        assert(is_digit(dec_digits(crc)[0]) && s[q2 + 7] == dec_digits(crc)[0]);
    } else if which == 3 {
        assert(forall|k: int|
            0 <= k < name_fragment_size().len() ==> is_plain_char(
                #[trigger] name_fragment_size()[k],
            ));
        lemma_escape_plain(name_fragment_size());
        assert(s.subrange(q3 + 2, q3 + 15) =~= json_escape(name_fragment_size()));
        assert(escaped_at(s, q3 + 2, name_fragment_size()));
        assert(s.subrange(q3 + 17, q4) =~= dec_digits(fs));
        crate::strnum::lemma_dec_digits_shape(fs);
        assert(is_digit(dec_digits(fs)[0]) && s[q3 + 17] == dec_digits(fs)[0]);
    } else {
        assert(forall|k: int|
            0 <= k < name_fragments().len() ==> is_plain_char(#[trigger] name_fragments()[k]));
        lemma_escape_plain(name_fragments());
        assert(s.subrange(q4 + 2, q4 + 11) =~= json_escape(name_fragments()));
        assert(escaped_at(s, q4 + 2, name_fragments()));
        assert(s.subrange(q4 + 13, z) =~= dec_digits(fr));
        crate::strnum::lemma_dec_digits_shape(fr);
        assert(is_digit(dec_digits(fr)[0]) && s[q4 + 13] == dec_digits(fr)[0]);
    }
}

/// Names used by the digest record, their escapes and lengths, and
/// their pairwise distinctness.
proof fn lemma_digest_names()
    ensures
        json_escape(name_name()) == name_name(),
        json_escape(name_size()) == name_size(),
        json_escape(name_crc()) == name_crc(),
        json_escape(name_fragment_size()) == name_fragment_size(),
        json_escape(name_fragments()) == name_fragments(),
        name_name().len() == 4,
        name_size().len() == 4,
        name_crc().len() == 3,
        name_fragment_size().len() == 13,
        name_fragments().len() == 9,
        name_size() != name_name(),
        name_crc() != name_name(),
        name_crc() != name_size(),
        name_fragment_size() != name_name(),
        name_fragment_size() != name_size(),
        name_fragment_size() != name_crc(),
        name_fragments() != name_name(),
        name_fragments() != name_size(),
        name_fragments() != name_crc(),
        name_fragments() != name_fragment_size(),
{
    assert(forall|k: int| 0 <= k < name_name().len() ==> is_plain_char(#[trigger] name_name()[k]));
    assert(forall|k: int| 0 <= k < name_size().len() ==> is_plain_char(#[trigger] name_size()[k]));
    assert(forall|k: int| 0 <= k < name_crc().len() ==> is_plain_char(#[trigger] name_crc()[k]));
    assert(forall|k: int|
        0 <= k < name_fragment_size().len() ==> is_plain_char(#[trigger] name_fragment_size()[k]));
    assert(forall|k: int|
        0 <= k < name_fragments().len() ==> is_plain_char(#[trigger] name_fragments()[k]));
    lemma_escape_plain(name_name());
    lemma_escape_plain(name_size());
    lemma_escape_plain(name_crc());
    lemma_escape_plain(name_fragment_size());
    lemma_escape_plain(name_fragments());
    assert(name_fragments() != name_fragment_size()) by {
        assert(name_fragments().len() != name_fragment_size().len());
    }
}

/// Step one of the digest parse: the `name` member.
#[verifier::rlimit(100)]
#[verifier::spinoff_prover]
proof fn lemma_digest_step1(name: Seq<char>, size: nat, crc: nat, fs: nat, fr: nat)
    ensures
        ({
            let s = spec_digest_json(name, size, crc, fs, fr);
            let q1 = 9 + json_escape(name).len() as int;
            let z = q1 + 9 + dec_digits(size).len() + 7 + dec_digits(crc).len() + 17
                + dec_digits(fs).len() + 13 + dec_digits(fr).len();
            &&& s.len() == z + 1
            &&& skip_ws(s, 0) == 0
            &&& s[0] == '{'
            &&& parse_member_1s4n(
                s,
                1,
                name_name(),
                name_size(),
                name_crc(),
                name_fragment_size(),
                name_fragments(),
                (
                    Option::<Seq<char>>::None,
                    Option::<nat>::None,
                    Option::<nat>::None,
                    Option::<nat>::None,
                    Option::<nat>::None,
                ),
            ) == Some(
                (
                    (
                        Some(name),
                        Option::<nat>::None,
                        Option::<nat>::None,
                        Option::<nat>::None,
                        Option::<nat>::None,
                    ),
                    q1 + 1,
                ),
            )
            &&& skip_ws(s, q1 + 1) == q1 + 1
            &&& s[q1 + 1] == ','
        }),
{
    let s = spec_digest_json(name, size, crc, fs, fr);
    lemma_digest_layout_a(name, size, crc, fs, fr);
    lemma_digest_layout_num(name, size, crc, fs, fr, 1);
    lemma_digest_names();
    let st0 = (
        Option::<Seq<char>>::None,
        Option::<nat>::None,
        Option::<nat>::None,
        Option::<nat>::None,
        Option::<nat>::None,
    );
    lemma_member5_a_at(
        s,
        1,
        name_name(),
        name_size(),
        name_crc(),
        name_fragment_size(),
        name_fragments(),
        st0,
        name,
    );
}

/// Step two: the `size` member.
#[verifier::rlimit(100)]
#[verifier::spinoff_prover]
proof fn lemma_digest_step2(name: Seq<char>, size: nat, crc: nat, fs: nat, fr: nat)
    requires
        size <= u64::MAX,
    ensures
        ({
            let s = spec_digest_json(name, size, crc, fs, fr);
            let q1 = 9 + json_escape(name).len() as int;
            let q2 = q1 + 9 + dec_digits(size).len();
            &&& parse_member_1s4n(
                s,
                q1 + 2,
                name_name(),
                name_size(),
                name_crc(),
                name_fragment_size(),
                name_fragments(),
                (
                    Some(name),
                    Option::<nat>::None,
                    Option::<nat>::None,
                    Option::<nat>::None,
                    Option::<nat>::None,
                ),
            ) == Some(
                (
                    (
                        Some(name),
                        Some(size),
                        Option::<nat>::None,
                        Option::<nat>::None,
                        Option::<nat>::None,
                    ),
                    q2,
                ),
            )
            &&& skip_ws(s, q2) == q2
            &&& s[q2] == ','
        }),
{
    let s = spec_digest_json(name, size, crc, fs, fr);
    let q1 = 9 + json_escape(name).len() as int;
    lemma_digest_layout_a(name, size, crc, fs, fr);
    lemma_digest_layout_num(name, size, crc, fs, fr, 1);
    lemma_digest_names();
    let st1 = (
        Some(name),
        Option::<nat>::None,
        Option::<nat>::None,
        Option::<nat>::None,
        Option::<nat>::None,
    );
    lemma_member5_num_at(
        s,
        q1 + 2,
        name_name(),
        name_size(),
        name_crc(),
        name_fragment_size(),
        name_fragments(),
        st1,
        name_size(),
        1,
        size,
    );
}

/// Step three: the `crc` member.
#[verifier::rlimit(100)]
#[verifier::spinoff_prover]
proof fn lemma_digest_step3(name: Seq<char>, size: nat, crc: nat, fs: nat, fr: nat)
    requires
        crc <= u64::MAX,
    ensures
        ({
            let s = spec_digest_json(name, size, crc, fs, fr);
            let q1 = 9 + json_escape(name).len() as int;
            let q2 = q1 + 9 + dec_digits(size).len();
            let q3 = q2 + 7 + dec_digits(crc).len();
            &&& parse_member_1s4n(
                s,
                q2 + 1,
                name_name(),
                name_size(),
                name_crc(),
                name_fragment_size(),
                name_fragments(),
                (
                    Some(name),
                    Some(size),
                    Option::<nat>::None,
                    Option::<nat>::None,
                    Option::<nat>::None,
                ),
            ) == Some(
                (
                    (Some(name), Some(size), Some(crc), Option::<nat>::None, Option::<nat>::None),
                    q3,
                ),
            )
            &&& skip_ws(s, q3) == q3
            &&& s[q3] == ','
        }),
{
    let s = spec_digest_json(name, size, crc, fs, fr);
    let q1 = 9 + json_escape(name).len() as int;
    let q2 = q1 + 9 + dec_digits(size).len();
    lemma_digest_layout_a(name, size, crc, fs, fr);
    lemma_digest_layout_num(name, size, crc, fs, fr, 2);
    lemma_digest_names();
    let st2 = (
        Some(name),
        Some(size),
        Option::<nat>::None,
        Option::<nat>::None,
        Option::<nat>::None,
    );
    lemma_member5_num_at(
        s,
        q2 + 1,
        name_name(),
        name_size(),
        name_crc(),
        name_fragment_size(),
        name_fragments(),
        st2,
        name_crc(),
        2,
        crc,
    );
}

/// Step four: the `fragment_size` member.
#[verifier::rlimit(100)]
#[verifier::spinoff_prover]
proof fn lemma_digest_step4(name: Seq<char>, size: nat, crc: nat, fs: nat, fr: nat)
    requires
        fs <= u64::MAX,
    ensures
        ({
            let s = spec_digest_json(name, size, crc, fs, fr);
            let q1 = 9 + json_escape(name).len() as int;
            let q2 = q1 + 9 + dec_digits(size).len();
            let q3 = q2 + 7 + dec_digits(crc).len();
            let q4 = q3 + 17 + dec_digits(fs).len();
            &&& parse_member_1s4n(
                s,
                q3 + 1,
                name_name(),
                name_size(),
                name_crc(),
                name_fragment_size(),
                name_fragments(),
                (Some(name), Some(size), Some(crc), Option::<nat>::None, Option::<nat>::None),
            ) == Some(
                ((Some(name), Some(size), Some(crc), Some(fs), Option::<nat>::None), q4),
            )
            &&& skip_ws(s, q4) == q4
            &&& s[q4] == ','
        }),
{
    let s = spec_digest_json(name, size, crc, fs, fr);
    let q1 = 9 + json_escape(name).len() as int;
    let q2 = q1 + 9 + dec_digits(size).len();
    let q3 = q2 + 7 + dec_digits(crc).len();
    lemma_digest_layout_a(name, size, crc, fs, fr);
    lemma_digest_layout_num(name, size, crc, fs, fr, 3);
    lemma_digest_names();
    let st3 = (Some(name), Some(size), Some(crc), Option::<nat>::None, Option::<nat>::None);
    lemma_member5_num_at(
        s,
        q3 + 1,
        name_name(),
        name_size(),
        name_crc(),
        name_fragment_size(),
        name_fragments(),
        st3,
        name_fragment_size(),
        3,
        fs,
    );
}

/// Step five: the `fragments` member and the closing brace.
#[verifier::rlimit(100)]
#[verifier::spinoff_prover]
proof fn lemma_digest_step5(name: Seq<char>, size: nat, crc: nat, fs: nat, fr: nat)
    requires
        fr <= u64::MAX,
    ensures
        ({
            let s = spec_digest_json(name, size, crc, fs, fr);
            let q1 = 9 + json_escape(name).len() as int;
            let q2 = q1 + 9 + dec_digits(size).len();
            let q3 = q2 + 7 + dec_digits(crc).len();
            let q4 = q3 + 17 + dec_digits(fs).len();
            let z = q4 + 13 + dec_digits(fr).len();
            &&& parse_member_1s4n(
                s,
                q4 + 1,
                name_name(),
                name_size(),
                name_crc(),
                name_fragment_size(),
                name_fragments(),
                (Some(name), Some(size), Some(crc), Some(fs), Option::<nat>::None),
            ) == Some(((Some(name), Some(size), Some(crc), Some(fs), Some(fr)), z))
            &&& skip_ws(s, z) == z
            &&& s[z] == '}'
            &&& skip_ws(s, z + 1) == z + 1
        }),
{
    let s = spec_digest_json(name, size, crc, fs, fr);
    let q1 = 9 + json_escape(name).len() as int;
    let q2 = q1 + 9 + dec_digits(size).len();
    let q3 = q2 + 7 + dec_digits(crc).len();
    let q4 = q3 + 17 + dec_digits(fs).len();
    lemma_digest_layout_a(name, size, crc, fs, fr);
    lemma_digest_layout_num(name, size, crc, fs, fr, 4);
    lemma_digest_names();
    let st4 = (Some(name), Some(size), Some(crc), Some(fs), Option::<nat>::None);
    lemma_member5_num_at(
        s,
        q4 + 1,
        name_name(),
        name_size(),
        name_crc(),
        name_fragment_size(),
        name_fragments(),
        st4,
        name_fragments(),
        4,
        fr,
    );
}

/// Round trip: the decoder accepts every canonically encoded
/// fragmentation digest and returns exactly its fields.  With the
/// contracts of `encode_fragmentation_digest` and
/// `decode_fragmentation_digest` this says that decoding an encoded
/// digest gives the digest back.
#[verifier::rlimit(100)]
#[verifier::spinoff_prover]
pub proof fn lemma_digest_roundtrip(name: Seq<char>, size: nat, crc: nat, fs: nat, fr: nat)
    requires
        size <= u64::MAX,
        crc <= u64::MAX,
        fs <= usize::MAX,
        fr <= u32::MAX,
    ensures
        spec_decode_digest(spec_digest_json(name, size, crc, fs, fr)) == Some(
            (name, size, crc, fs, fr),
        ),
{
    let s = spec_digest_json(name, size, crc, fs, fr);
    let q1 = 9 + json_escape(name).len() as int;
    let q2 = q1 + 9 + dec_digits(size).len();
    let q3 = q2 + 7 + dec_digits(crc).len();
    let q4 = q3 + 17 + dec_digits(fs).len();
    let z = q4 + 13 + dec_digits(fr).len();
    lemma_digest_step1(name, size, crc, fs, fr);
    lemma_digest_step2(name, size, crc, fs, fr);
    lemma_digest_step3(name, size, crc, fs, fr);
    lemma_digest_step4(name, size, crc, fs, fr);
    lemma_digest_step5(name, size, crc, fs, fr);
    let st1 = (
        Some(name),
        Option::<nat>::None,
        Option::<nat>::None,
        Option::<nat>::None,
        Option::<nat>::None,
    );
    let st2 = (
        Some(name),
        Some(size),
        Option::<nat>::None,
        Option::<nat>::None,
        Option::<nat>::None,
    );
    let st3 = (Some(name), Some(size), Some(crc), Option::<nat>::None, Option::<nat>::None);
    let st4 = (Some(name), Some(size), Some(crc), Some(fs), Option::<nat>::None);
    lemma_obj5_from_members(
        s,
        name_name(),
        name_size(),
        name_crc(),
        name_fragment_size(),
        name_fragments(),
        st1,
        st2,
        st3,
        st4,
        name,
        size,
        crc,
        fs,
        fr,
        q1 + 1,
        q2,
        q3,
        q4,
        z,
    );
}

} // verus!
