//! Feedback arriving from an HTML form, as `application/x-www-form-urlencoded`.
//!
//! Two decoding rules — `+` is a space, `%XX` is a byte — and a stray `%` or a
//! truncated escape is kept literally: this is the commenter's prose, and losing a
//! character silently is worse than showing the `%` they typed.
use vstd::prelude::*;
use vstd::utf8::{
    decode_utf8, encode_scalar, encode_utf8, encode_utf8_decode_utf8, encode_utf8_valid_utf8,
    valid_utf8,
};

use crate::feedback::model::{fresh_item, FeedbackItem, FeedbackKind, SubTarget};
use crate::text::{
    blank, chars_of, concat, find_char, is_blank, lemma_find_char_at, lemma_find_char_none,
    position, same, slice, split_on, split_once, string_of,
};

verus! {

/// What `String::from_utf8_lossy` makes of a run of bytes.
pub uninterp spec fn lossy_text(bytes: Seq<u8>) -> Seq<char>;

/// `String::from_utf8_lossy`, owned: the text the bytes encode, with each
/// invalid sequence replaced. Valid UTF-8 decodes to exactly its characters;
/// what an invalid sequence becomes is left to the name.
#[verifier::external_body]
fn text_from_bytes(bytes: &[u8]) -> (out: String)
    ensures
        out@ == lossy_text(bytes@),
        valid_utf8(bytes@) ==> out@ == decode_utf8(bytes@),
{
    String::from_utf8_lossy(bytes).into_owned()
}

pub open spec fn is_hex_byte(b: u8) -> bool {
    (48 <= b && b <= 57) || (97 <= b && b <= 102) || (65 <= b && b <= 70)
}

pub open spec fn hex_value(b: u8) -> int {
    if b <= 57 {
        b - 48
    } else if b >= 97 {
        b - 87
    } else {
        b - 55
    }
}

/// The byte a `%` at `i` stands for, when an escape follows it.
///
/// Two hex digits make a byte; so does `+` and one digit, because that is what
/// `u8::from_str_radix` accepts from the two characters after the `%`.
pub open spec fn escape_at(b: Seq<u8>, i: int) -> Option<u8> {
    if 0 <= i && i + 3 <= b.len() {
        if is_hex_byte(b[i + 1]) && is_hex_byte(b[i + 2]) {
            Some((hex_value(b[i + 1]) * 16 + hex_value(b[i + 2])) as u8)
        } else if b[i + 1] == 43 && is_hex_byte(b[i + 2]) {
            Some(hex_value(b[i + 2]) as u8)
        } else {
            None
        }
    } else {
        None
    }
}

/// The bytes a urlencoded value stands for.
pub open spec fn unescape(b: Seq<u8>) -> Seq<u8>
    decreases b.len(),
{
    if b.len() == 0 {
        Seq::empty()
    } else if b[0] == 43 {
        seq![32u8] + unescape(b.skip(1))
    } else if b[0] == 37 {
        match escape_at(b, 0) {
            Some(x) => if b.len() >= 3 {
                seq![x] + unescape(b.skip(3))
            } else {
                Seq::empty()
            },
            None => seq![37u8] + unescape(b.skip(1)),
        }
    } else {
        seq![b[0]] + unescape(b.skip(1))
    }
}

/// The bytes a urlencoded value stands for, from the characters it was
/// written with.
pub open spec fn unescaped(raw: Seq<char>) -> Seq<u8> {
    unescape(encode_utf8(raw))
}

/// One decoded value: the text its bytes encode when they are UTF-8, and
/// otherwise what `String::from_utf8_lossy` makes of them.
pub open spec fn decode_of(raw: Seq<char>) -> Seq<char> {
    if valid_utf8(unescaped(raw)) {
        decode_utf8(unescaped(raw))
    } else {
        lossy_text(unescaped(raw))
    }
}

fn hex_byte(b: u8) -> (r: bool)
    ensures
        r == is_hex_byte(b),
{
    (48 <= b && b <= 57) || (97 <= b && b <= 102) || (65 <= b && b <= 70)
}

fn hex_of(b: u8) -> (v: u8)
    requires
        is_hex_byte(b),
    ensures
        v as int == hex_value(b),
        v < 16,
{
    if b <= 57 {
        b - 48
    } else if b >= 97 {
        b - 87
    } else {
        b - 55
    }
}

/// One `key=value` pair's value, decoded.
pub fn decode(raw: &str) -> (out: String)
    ensures
        out@ == decode_of(raw@),
{
    let bytes = raw.as_bytes();
    let mut out: Vec<u8> = Vec::new();
    let mut i: usize = 0;
    assert(bytes@.skip(0) == bytes@);
    while i < bytes.len()
        invariant
            i <= bytes.len(),
            unescape(bytes@) == out@ + unescape(bytes@.skip(i as int)),
        decreases bytes.len() - i,
    {
        let ghost rest = bytes@.skip(i as int);
        assert(rest[0] == bytes@[i as int]);
        let b = bytes[i];
        if b == 43 {
            assert(rest.skip(1) == bytes@.skip(i + 1));
            out.push(32u8);
            i += 1;
        } else if b == 37 {
            let mut escaped: Option<u8> = None;
            if bytes.len() - i >= 3 {
                let (h, l) = (bytes[i + 1], bytes[i + 2]);
                assert(rest[1] == h && rest[2] == l);
                if hex_byte(h) && hex_byte(l) {
                    let hv = hex_of(h);
                    let lv = hex_of(l);
                    escaped = Some(hv * 16 + lv);
                } else if h == 43 && hex_byte(l) {
                    escaped = Some(hex_of(l));
                }
            }
            assert(escaped == escape_at(rest, 0));
            match escaped {
                Some(x) => {
                    assert(rest.skip(3) == bytes@.skip(i + 3));
                    out.push(x);
                    i += 3;
                },
                None => {
                    assert(rest.skip(1) == bytes@.skip(i + 1));
                    out.push(37u8);
                    i += 1;
                },
            }
        } else {
            assert(rest.skip(1) == bytes@.skip(i + 1));
            out.push(b);
            i += 1;
        }
    }
    assert(out@ + unescape(bytes@.skip(i as int)) == out@);
    text_from_bytes(out.as_slice())
}

/// The decoded value of the first pair among `pairs` whose decoded name is
/// `key`.
pub open spec fn field_among(pairs: Seq<Seq<char>>, key: Seq<char>) -> Option<Seq<char>>
    decreases pairs.len(),
{
    if pairs.len() == 0 {
        None
    } else {
        match split_once(pairs[0], '=') {
            Some((k, v)) => if decode_of(k) == key {
                Some(decode_of(v))
            } else {
                field_among(pairs.drop_first(), key)
            },
            None => field_among(pairs.drop_first(), key),
        }
    }
}

/// The value of `key` in a urlencoded body.
pub open spec fn field_of(body: Seq<char>, key: Seq<char>) -> Option<Seq<char>> {
    field_among(split_on(body, '&'), key)
}

/// The value of `key` in a urlencoded body, decoded.
pub fn field(body: &str, key: &str) -> (out: Option<String>)
    ensures
        out matches Some(v) ==> field_of(body@, key@) == Some(v@),
        out is None ==> field_of(body@, key@) is None,
{
    let b = chars_of(body);
    let want = chars_of(key);
    let mut start: usize = 0;
    assert(b@.skip(0) == b@);
    loop
        invariant
            start <= b.len(),
            field_of(body@, key@) == field_among(split_on(b@.skip(start as int), '&'), key@),
            b@ == body@,
            want@ == key@,
        decreases b.len() - start,
    {
        let rest = slice(&b, start, b.len());
        assert(rest@ == b@.skip(start as int));
        let next = position(&rest, '&');
        let piece = match next {
            Some(k) => slice(&rest, 0, k),
            None => slice(&rest, 0, rest.len()),
        };
        proof {
            assert(rest@.subrange(0, rest@.len() as int) == rest@);
            if let Some(k) = next {
                assert(split_on(rest@, '&') == seq![rest@.take(k as int)] + split_on(
                    rest@.skip(k + 1),
                    '&',
                ));
                assert(split_on(rest@, '&')[0] == piece@);
                assert(split_on(rest@, '&').drop_first() == split_on(rest@.skip(k + 1), '&'));
                assert(rest@.skip(k + 1) == b@.skip(start + k + 1));
            } else {
                assert(split_on(rest@, '&') == seq![rest@]);
                assert(split_on(rest@, '&').drop_first().len() == 0);
            }
        }
        let eq_at = position(&piece, '=');
        if let Some(eq) = eq_at {
            let name = string_of(&slice(&piece, 0, eq));
            let decoded = decode(name.as_str());
            assert(piece@.take(eq as int) == piece@.subrange(0, eq as int));
            assert(piece@.skip(eq + 1) == piece@.subrange(eq + 1, piece@.len() as int));
            if same(&chars_of(decoded.as_str()), &want) {
                let value = string_of(&slice(&piece, eq + 1, piece.len()));
                return Some(decode(value.as_str()));
            }
            assert(decode_of(piece@.take(eq as int)) != key@);
        }
        assert(field_among(split_on(rest@, '&'), key@) == field_among(
            split_on(rest@, '&').drop_first(),
            key@,
        ));
        match next {
            Some(k) => {
                start = start + k + 1;
            },
            None => {
                return None;
            },
        }
    }
}

/// How a form body reads, before an item is built from it.
pub enum FormReading {
    /// The body field is missing or blank.
    NoBody,
    /// A kind that is not a commenter's to send, as written.
    BadKind(Seq<char>),
    /// The block field is missing or blank.
    NoTarget,
    /// Everything an item needs.
    Item { block: Seq<char>, sub: Option<Seq<char>>, kind: FeedbackKind, text: Seq<char> },
}

pub open spec fn or_empty(v: Option<Seq<char>>) -> Seq<char> {
    match v {
        Some(s) => s,
        None => Seq::empty(),
    }
}

/// How `parse_feedback_form` reads a body.
pub open spec fn form_reading(body: Seq<char>) -> FormReading {
    let block = or_empty(field_of(body, "block_id"@));
    let text = or_empty(field_of(body, "body"@));
    let kind = field_of(body, "kind"@);
    let sub = match field_of(body, "sub"@) {
        Some(s) => if is_blank(s) {
            None
        } else {
            Some(s)
        },
        None => None,
    };
    if is_blank(text) {
        FormReading::NoBody
    } else if kind matches Some(k) && k != "answer"@ && k != "annotation"@ {
        FormReading::BadKind(kind->0)
    } else if is_blank(block) {
        FormReading::NoTarget
    } else {
        FormReading::Item {
            block,
            sub,
            kind: if kind == Some("answer"@) {
                FeedbackKind::Answer
            } else {
                FeedbackKind::Annotation
            },
            text,
        }
    }
}

/// Whether an optional sub-target is a node named by `sub`.
pub open spec fn node_target(sub: Option<Seq<char>>, target: Option<SubTarget>) -> bool {
    match sub {
        Some(s) => target matches Some(SubTarget::Node(n)) && n@ == s,
        None => target is None,
    }
}

fn field_or_empty(body: &str, key: &str) -> (out: Vec<char>)
    ensures
        out@ == or_empty(field_of(body@, key@)),
{
    match field(body, key) {
        Some(v) => chars_of(v.as_str()),
        None => Vec::new(),
    }
}

/// Parse one submitted item from a form post.
///
/// `kind` decides what the body means: an `annotation` carries prose, an
/// `answer` the option chosen. `sub` names a diagram node when the commenter
/// aimed at one; a blank `sub` reads as absent, because that is what an
/// untouched hidden input submits.
pub fn parse_feedback_form(body: &str) -> (r: Result<FeedbackItem, String>)
    ensures
        match form_reading(body@) {
            FormReading::NoBody => r matches Err(m) && m@ == "feedback carries no body"@,
            FormReading::BadKind(k) => r matches Err(m) && m@ == "'"@ + k
                + "' is not a kind a commenter sends"@,
            FormReading::NoTarget => r matches Err(m) && m@
                == "feedback names no resolvable target"@,
            FormReading::Item { block, sub, kind, text } => r matches Ok(item) && fresh_item(
                block,
                item.sub_target,
                kind,
                text,
                item,
            ) && node_target(sub, item.sub_target),
        },
{
    let block = field_or_empty(body, "block_id");
    let text = field_or_empty(body, "body");
    if blank(&text) {
        return Err(string_of(&chars_of("feedback carries no body")));
    }
    let answer = chars_of("answer");
    let annotation = chars_of("annotation");
    let kind = match field(body, "kind") {
        Some(k) => {
            let written = chars_of(k.as_str());
            if same(&written, &answer) {
                FeedbackKind::Answer
            } else if same(&written, &annotation) {
                FeedbackKind::Annotation
            } else {
                let quoted = concat(&chars_of("'"), &written);
                let message = concat(&quoted, &chars_of("' is not a kind a commenter sends"));
                return Err(string_of(&message));
            }
        },
        None => FeedbackKind::Annotation,
    };
    let sub = match field(body, "sub") {
        Some(s) => {
            if blank(&chars_of(s.as_str())) {
                None
            } else {
                Some(SubTarget::Node(s))
            }
        },
        None => None,
    };
    let block_text = string_of(&block);
    let text_text = string_of(&text);
    match FeedbackItem::new(block_text.as_str(), sub, kind, text_text.as_str()) {
        Ok(item) => Ok(item),
        Err(_) => Err(string_of(&chars_of("feedback names no resolvable target"))),
    }
}

/// What the `kind` field decides. A form with a body and a block whose kind
/// is `annotation`, or which names no kind, is read as an annotation; one
/// whose kind is `answer` is read as an answer; in both cases the item
/// carries the block and the body as sent. A kind is refused only when one is
/// written and it is neither of those two words. A blank body is refused
/// before anything else is looked at, and a blank block after the kind. A
/// blank `sub` reads as no sub-target at all.
pub proof fn only_a_kind_outside_answer_and_annotation_is_refused(body: Seq<char>)
    ensures
        ({
            let block = or_empty(field_of(body, "block_id"@));
            let text = or_empty(field_of(body, "body"@));
            let kind = field_of(body, "kind"@);
            &&& (!is_blank(text) && !is_blank(block) && (kind is None || kind == Some(
                "annotation"@,
            ))) ==> (form_reading(body) matches FormReading::Item { block: b, kind: k, text: t, .. }
                && b == block && t == text && k == FeedbackKind::Annotation)
            &&& (!is_blank(text) && !is_blank(block) && kind == Some("answer"@)) ==> (form_reading(
                body,
            ) matches FormReading::Item { block: b, kind: k, text: t, .. } && b == block && t
                == text && k == FeedbackKind::Answer)
            &&& (form_reading(body) matches FormReading::BadKind(k) ==> kind == Some(k) && k
                != "answer"@ && k != "annotation"@)
            &&& (form_reading(body) matches FormReading::Item { sub, .. } ==> sub == match field_of(
                body,
                "sub"@,
            ) {
                Some(s) => if is_blank(s) {
                    None
                } else {
                    Some(s)
                },
                None => None,
            })
            &&& (is_blank(text) ==> form_reading(body) is NoBody)
            &&& (!is_blank(text) && is_blank(block) && (kind is None || kind == Some(
                "annotation"@,
            ) || kind == Some("answer"@)) ==> form_reading(body) is NoTarget)
        }),
{
    reveal_strlit("answer");
    reveal_strlit("annotation");
    assert("annotation"@ != "answer"@) by {
        assert("annotation"@.len() != "answer"@.len());
    }
}

/// A body is read pair by pair, first to last: the first pair whose decoded
/// name is the key gives its decoded value, a pair named otherwise is passed
/// over, and a body whose last pair names another key has no such field.
pub proof fn the_first_pair_that_names_a_field_gives_it(
    name: Seq<char>,
    value: Seq<char>,
    rest: Seq<char>,
    key: Seq<char>,
)
    requires
        !name.contains('&'),
        !name.contains('='),
        !value.contains('&'),
    ensures
        field_of(name + seq!['='] + value + seq!['&'] + rest, key) == if decode_of(name) == key {
            Some(decode_of(value))
        } else {
            field_of(rest, key)
        },
        field_of(name + seq!['='] + value, key) == if decode_of(name) == key {
            Some(decode_of(value))
        } else {
            None
        },
{
    let pair = name + seq!['='] + value;
    let body = pair + seq!['&'] + rest;
    let n = name.len() as int;
    assert forall|j: int| 0 <= j < pair.len() implies pair[j] != '&' by {
        if j < n {
            assert(pair[j] == name[j]);
            assert(!name.contains('&'));
        } else if j > n {
            assert(pair[j] == value[j - n - 1]);
            assert(!value.contains('&'));
        }
    }
    assert(body[pair.len() as int] == '&');
    assert forall|j: int| 0 <= j < pair.len() implies body[j] != '&' by {
        assert(body[j] == pair[j]);
    }
    lemma_find_char_at(body, '&', pair.len() as int);
    assert(body.take(pair.len() as int) =~= pair);
    assert(body.skip(pair.len() + 1 as int) =~= rest);
    assert(split_on(body, '&') == seq![pair] + split_on(rest, '&'));
    assert((seq![pair] + split_on(rest, '&')).drop_first() =~= split_on(rest, '&'));
    assert forall|j: int| 0 <= j < n implies pair[j] != '=' by {
        assert(pair[j] == name[j]);
        assert(!name.contains('='));
    }
    lemma_find_char_at(pair, '=', n);
    assert(pair.take(n) =~= name);
    assert(pair.skip(n + 1) =~= value);
    lemma_find_char_none(pair, '&');
    assert(split_on(pair, '&') == seq![pair]);
    assert(seq![pair].drop_first() =~= Seq::<Seq<char>>::empty());
    assert(field_among(Seq::<Seq<char>>::empty(), key) is None);
}

/// `raw` with every `+` read as a space.
pub open spec fn plus_as_space(raw: Seq<char>) -> Seq<char> {
    raw.map_values(|c: char| if c == '+' { ' ' } else { c })
}

/// The upper-case hex digit for `n`.
pub open spec fn hex_digit(n: int) -> char {
    if n == 0 {
        '0'
    } else if n == 1 {
        '1'
    } else if n == 2 {
        '2'
    } else if n == 3 {
        '3'
    } else if n == 4 {
        '4'
    } else if n == 5 {
        '5'
    } else if n == 6 {
        '6'
    } else if n == 7 {
        '7'
    } else if n == 8 {
        '8'
    } else if n == 9 {
        '9'
    } else if n == 10 {
        'A'
    } else if n == 11 {
        'B'
    } else if n == 12 {
        'C'
    } else if n == 13 {
        'D'
    } else if n == 14 {
        'E'
    } else {
        'F'
    }
}

/// Every byte written as `%XX`, with upper-case hex digits.
pub open spec fn percent_all(bytes: Seq<u8>) -> Seq<char>
    decreases bytes.len(),
{
    if bytes.len() == 0 {
        Seq::empty()
    } else {
        seq!['%', hex_digit((bytes[0] / 16) as int), hex_digit((bytes[0] % 16) as int)] + percent_all(
            bytes.drop_first(),
        )
    }
}

/// The byte an ASCII character is written with.
pub open spec fn ascii_byte(c: char) -> u8 {
    (c as u32) as u8
}

proof fn lemma_narrow_scalar(v: u32)
    by (bit_vector)
    requires
        v <= 0x7F,
    ensures
        ((v & 0x7F) as u8) == (v as u8),
{
}

proof fn lemma_ascii_encode(s: Seq<char>)
    requires
        forall|i: int| 0 <= i < s.len() ==> (#[trigger] s[i] as u32) < 128,
    ensures
        encode_utf8(s) == s.map_values(|c: char| ascii_byte(c)),
    decreases s.len(),
{
    if s.len() > 0 {
        let rest = s.drop_first();
        assert forall|i: int| 0 <= i < rest.len() implies (#[trigger] rest[i] as u32) < 128 by {
            assert(rest[i] == s[i + 1]);
        }
        lemma_ascii_encode(rest);
        let v = s[0] as u32;
        lemma_narrow_scalar(v);
        assert(encode_scalar(v) == seq![ascii_byte(s[0])]);
        assert(s.map_values(|c: char| ascii_byte(c)) =~= seq![ascii_byte(s[0])]
            + rest.map_values(|c: char| ascii_byte(c)));
    }
}

proof fn lemma_unescape_plain(e: Seq<u8>, r: Seq<u8>)
    requires
        forall|i: int| 0 <= i < e.len() ==> #[trigger] e[i] != 37 && e[i] != 43,
    ensures
        unescape(e + r) == e + unescape(r),
    decreases e.len(),
{
    if e.len() > 0 {
        let rest = e.drop_first();
        assert forall|i: int| 0 <= i < rest.len() implies #[trigger] rest[i] != 37 && rest[i]
            != 43 by {
            assert(rest[i] == e[i + 1]);
        }
        lemma_unescape_plain(rest, r);
        assert((e + r)[0] == e[0]);
        assert((e + r).skip(1) =~= rest + r);
        assert(e + unescape(r) =~= seq![e[0]] + (rest + unescape(r)));
    }
}

proof fn lemma_high_bytes(x: u8)
    by (bit_vector)
    ensures
        (0x80u8 | x) >= 0x80u8,
        (0xC0u8 | x) >= 0x80u8,
        (0xE0u8 | x) >= 0x80u8,
        (0xF0u8 | x) >= 0x80u8,
{
}

/// A character outside ASCII is written with bytes that are all 0x80 or
/// above, so none of them is a `%` or a `+`.
proof fn lemma_wide_scalar(v: u32)
    requires
        v > 0x7F,
    ensures
        forall|i: int| 0 <= i < encode_scalar(v).len() ==> #[trigger] encode_scalar(v)[i] >= 0x80,
{
    lemma_high_bytes(((v >> 6) & 0x1F) as u8);
    lemma_high_bytes(((v >> 12) & 0x0F) as u8);
    lemma_high_bytes(((v >> 18) & 0x7) as u8);
    lemma_high_bytes((v & 0x3F) as u8);
    lemma_high_bytes(((v >> 6) & 0x3F) as u8);
    lemma_high_bytes(((v >> 12) & 0x3F) as u8);
}

proof fn lemma_no_percent(raw: Seq<char>)
    requires
        !raw.contains('%'),
    ensures
        unescaped(raw) == encode_utf8(plus_as_space(raw)),
    decreases raw.len(),
{
    if raw.len() > 0 {
        let c = raw[0];
        let rest = raw.drop_first();
        if rest.contains('%') {
            let i = choose|i: int| 0 <= i < rest.len() && rest[i] == '%';
            assert(raw[i + 1] == '%');
        }
        lemma_no_percent(rest);
        let v = c as u32;
        let e = encode_scalar(v);
        let r = encode_utf8(rest);
        assert(encode_utf8(raw) == e + r);
        let p = plus_as_space(raw);
        assert(p[0] == if c == '+' { ' ' } else { c });
        assert(p.drop_first() =~= plus_as_space(rest));
        assert(encode_utf8(p) == encode_scalar(p[0] as u32) + encode_utf8(plus_as_space(rest)));
        if c == '+' {
            lemma_narrow_scalar(v);
            lemma_narrow_scalar(' ' as u32);
            assert(e == seq![43u8]);
            assert((e + r)[0] == 43u8);
            assert((e + r).skip(1) =~= r);
            assert(encode_scalar(' ' as u32) == seq![32u8]);
        } else {
            if v <= 0x7F {
                lemma_narrow_scalar(v);
                assert(e == seq![v as u8]);
                assert(c != '%');
                assert((v as u8) as u32 == v) by (bit_vector)
                    requires
                        v <= 0x7F,
                ;
                vstd::utf8::char_u32_cast(c, v);
                vstd::utf8::char_u32_cast('%', '%' as u32);
                vstd::utf8::char_u32_cast('+', '+' as u32);
                assert(('%' as u32) == 37 && ('+' as u32) == 43);
                assert(v as u8 != 37 && v as u8 != 43);
            } else {
                lemma_wide_scalar(v);
            }
            lemma_unescape_plain(e, r);
        }
    }
}

/// Decoding a value with no `%` in it reads each `+` as a space and keeps
/// every other character as it was written.
pub proof fn a_value_without_escapes_only_loses_its_pluses(raw: Seq<char>)
    requires
        !raw.contains('%'),
    ensures
        decode_of(raw) == plus_as_space(raw),
{
    lemma_no_percent(raw);
    encode_utf8_valid_utf8(plus_as_space(raw));
    encode_utf8_decode_utf8(plus_as_space(raw));
}

/// The bytes of `percent_all(bytes)`.
spec fn percent_bytes(bytes: Seq<u8>) -> Seq<u8>
    decreases bytes.len(),
{
    if bytes.len() == 0 {
        Seq::empty()
    } else {
        seq![37u8, ascii_byte(hex_digit((bytes[0] / 16) as int)), ascii_byte(hex_digit((bytes[0] % 16) as int))]
            + percent_bytes(bytes.drop_first())
    }
}

proof fn lemma_hex_digit(n: int)
    requires
        0 <= n < 16,
    ensures
        (hex_digit(n) as u32) < 128,
        is_hex_byte(ascii_byte(hex_digit(n))),
        hex_value(ascii_byte(hex_digit(n))) == n,
{
}

proof fn lemma_percent_bytes(bytes: Seq<u8>)
    ensures
        forall|i: int| 0 <= i < percent_all(bytes).len() ==> (#[trigger] percent_all(bytes)[i] as u32) < 128,
        percent_all(bytes).map_values(|c: char| ascii_byte(c)) == percent_bytes(bytes),
        unescape(percent_bytes(bytes)) == bytes,
    decreases bytes.len(),
{
    if bytes.len() > 0 {
        let rest = bytes.drop_first();
        lemma_percent_bytes(rest);
        let b = bytes[0];
        lemma_hex_digit((b / 16) as int);
        lemma_hex_digit((b % 16) as int);
        let head = seq!['%', hex_digit((b / 16) as int), hex_digit((b % 16) as int)];
        let all = percent_all(bytes);
        assert(all == head + percent_all(rest));
        assert forall|i: int| 0 <= i < all.len() implies (#[trigger] all[i] as u32) < 128 by {
            if i >= 3 {
                assert(all[i] == percent_all(rest)[i - 3]);
            }
        }
        assert(all.map_values(|c: char| ascii_byte(c)) =~= head.map_values(|c: char| ascii_byte(c))
            + percent_all(rest).map_values(|c: char| ascii_byte(c)));
        assert(ascii_byte('%') == 37u8);
        let pb = percent_bytes(bytes);
        assert(head.map_values(|c: char| ascii_byte(c)) =~= pb.take(3));
        assert(escape_at(pb, 0) == Some(b)) by {
            assert(pb[1] == ascii_byte(hex_digit((b / 16) as int)));
            assert(pb[2] == ascii_byte(hex_digit((b % 16) as int)));
            assert((b / 16) * 16 + b % 16 == b);
        }
        assert(pb.skip(3) =~= percent_bytes(rest));
        assert(unescape(pb) == seq![b] + unescape(pb.skip(3)));
        assert(seq![b] + rest =~= bytes);
    }
}

/// Writing every byte of a text as `%XX` and decoding the result gives the
/// text back exactly.
pub proof fn every_byte_escaped_decodes_to_the_text(text: Seq<char>)
    ensures
        decode_of(percent_all(encode_utf8(text))) == text,
{
    let bytes = encode_utf8(text);
    lemma_percent_bytes(bytes);
    lemma_ascii_encode(percent_all(bytes));
    encode_utf8_valid_utf8(text);
    encode_utf8_decode_utf8(text);
}

} // verus!
