//! Characters and strings, read as sequences of `char`.
//!
//! Every reader in this crate works on the characters of its input rather than
//! on byte offsets, so the specifications here are stated over `Seq<char>`:
//! trimming, line splitting, searching and case folding, each with the
//! executable function that computes it.
use vstd::prelude::*;

verus! {

/// `String::push` appends one character to the end of the string.
pub assume_specification[ String::push ](s: &mut String, ch: char)
    ensures
        final(s)@ == old(s)@.push(ch),
;

// ---------------------------------------------------------------------------
// Building and copying

/// The characters of a string slice, in order.
pub fn chars_of(s: &str) -> (out: Vec<char>)
    ensures
        out@ == s@,
{
    let mut out: Vec<char> = Vec::new();
    for c in it: s.chars()
        invariant
            out@ == it.seq().take(it.index() as int),
            it.seq() == s@,
    {
        out.push(c);
    }
    out
}

/// A string holding exactly the given characters.
pub fn string_of(cs: &[char]) -> (out: String)
    ensures
        out@ == cs@,
{
    let mut out = String::new();
    let mut i: usize = 0;
    while i < cs.len()
        invariant
            i <= cs.len(),
            out@ == cs@.take(i as int),
        decreases cs.len() - i,
    {
        out.push(cs[i]);
        i += 1;
        assert(out@ == cs@.take(i as int));
    }
    out
}

/// The characters `from..to` of `s`, copied.
pub fn slice(s: &[char], from: usize, to: usize) -> (out: Vec<char>)
    requires
        from <= to <= s.len(),
    ensures
        out@ == s@.subrange(from as int, to as int),
{
    let mut out: Vec<char> = Vec::new();
    let mut i = from;
    while i < to
        invariant
            from <= i <= to <= s.len(),
            out@ == s@.subrange(from as int, i as int),
        decreases to - i,
    {
        out.push(s[i]);
        i += 1;
        assert(out@ == s@.subrange(from as int, i as int));
    }
    out
}

/// `a` followed by `b`.
pub fn concat(a: &[char], b: &[char]) -> (out: Vec<char>)
    ensures
        out@ == a@ + b@,
{
    let mut out = slice(a, 0, a.len());
    let mut i: usize = 0;
    while i < b.len()
        invariant
            i <= b.len(),
            out@ == a@ + b@.take(i as int),
        decreases b.len() - i,
    {
        out.push(b[i]);
        i += 1;
        assert(out@ == a@ + b@.take(i as int));
    }
    assert(b@.take(b@.len() as int) == b@);
    out
}

/// Whether two character runs are the same.
pub fn same(a: &[char], b: &[char]) -> (r: bool)
    ensures
        r == (a@ == b@),
{
    if a.len() != b.len() {
        return false;
    }
    let mut i: usize = 0;
    while i < a.len()
        invariant
            i <= a.len() == b.len(),
            a@.take(i as int) == b@.take(i as int),
        decreases a.len() - i,
    {
        if a[i] != b[i] {
            return false;
        }
        i += 1;
        assert(a@.take(i as int) == b@.take(i as int));
    }
    assert(a@ == a@.take(a@.len() as int));
    assert(b@ == b@.take(b@.len() as int));
    true
}

// ---------------------------------------------------------------------------
// Classes of character

/// Unicode's `White_Space` property, which is what `char::is_whitespace` tests.
pub open spec fn is_ws(c: char) -> bool {
    ||| ('\u{9}' <= c && c <= '\u{d}')
    ||| c == ' '
    ||| c == '\u{85}'
    ||| c == '\u{a0}'
    ||| c == '\u{1680}'
    ||| ('\u{2000}' <= c && c <= '\u{200a}')
    ||| c == '\u{2028}'
    ||| c == '\u{2029}'
    ||| c == '\u{202f}'
    ||| c == '\u{205f}'
    ||| c == '\u{3000}'
}

pub fn ws(c: char) -> (r: bool)
    ensures
        r == is_ws(c),
{
    ('\u{9}' <= c && c <= '\u{d}') || c == ' ' || c == '\u{85}' || c == '\u{a0}' || c
        == '\u{1680}' || ('\u{2000}' <= c && c <= '\u{200a}') || c == '\u{2028}' || c
        == '\u{2029}' || c == '\u{202f}' || c == '\u{205f}' || c == '\u{3000}'
}

pub open spec fn is_digit(c: char) -> bool {
    '0' <= c && c <= '9'
}

pub fn digit(c: char) -> (r: bool)
    ensures
        r == is_digit(c),
{
    '0' <= c && c <= '9'
}

pub open spec fn is_alpha(c: char) -> bool {
    ('a' <= c && c <= 'z') || ('A' <= c && c <= 'Z')
}

pub fn alpha(c: char) -> (r: bool)
    ensures
        r == is_alpha(c),
{
    ('a' <= c && c <= 'z') || ('A' <= c && c <= 'Z')
}

pub open spec fn is_alnum(c: char) -> bool {
    is_alpha(c) || is_digit(c)
}

pub fn alnum(c: char) -> (r: bool)
    ensures
        r == is_alnum(c),
{
    alpha(c) || digit(c)
}

/// A letter, digit or underscore: what an identifier may hold.
pub open spec fn is_ident(c: char) -> bool {
    is_alnum(c) || c == '_'
}

pub fn ident(c: char) -> (r: bool)
    ensures
        r == is_ident(c),
{
    alnum(c) || c == '_'
}

pub open spec fn is_hex(c: char) -> bool {
    is_digit(c) || ('a' <= c && c <= 'f') || ('A' <= c && c <= 'F')
}

pub fn hex(c: char) -> (r: bool)
    ensures
        r == is_hex(c),
{
    digit(c) || ('a' <= c && c <= 'f') || ('A' <= c && c <= 'F')
}

/// ASCII lower case; every other character is left as it is.
pub open spec fn lower(c: char) -> char {
    if 'A' <= c && c <= 'Z' {
        ((c as u32) + 32) as char
    } else {
        c
    }
}

pub fn to_lower(c: char) -> (d: char)
    ensures
        d == lower(c),
{
    if 'A' <= c && c <= 'Z' {
        ((c as u8) + 32) as char
    } else {
        c
    }
}

/// ASCII upper case; every other character is left as it is.
pub open spec fn upper(c: char) -> char {
    if 'a' <= c && c <= 'z' {
        ((c as u32) - 32) as char
    } else {
        c
    }
}

pub fn to_upper(c: char) -> (d: char)
    ensures
        d == upper(c),
{
    if 'a' <= c && c <= 'z' {
        ((c as u8) - 32) as char
    } else {
        c
    }
}

pub open spec fn lower_all(s: Seq<char>) -> Seq<char> {
    s.map_values(|c: char| lower(c))
}

/// Every ASCII capital in `s` made small.
pub fn lowercase(s: &[char]) -> (out: Vec<char>)
    ensures
        out@ == lower_all(s@),
{
    let mut out: Vec<char> = Vec::new();
    let mut i: usize = 0;
    while i < s.len()
        invariant
            i <= s.len(),
            out@ == lower_all(s@.take(i as int)),
        decreases s.len() - i,
    {
        out.push(to_lower(s[i]));
        i += 1;
        assert(out@ == lower_all(s@.take(i as int)));
    }
    assert(s@.take(s@.len() as int) == s@);
    out
}

/// Equal once ASCII case is ignored.
pub open spec fn eq_ignore_case(a: Seq<char>, b: Seq<char>) -> bool {
    lower_all(a) == lower_all(b)
}

pub fn same_ignoring_case(a: &[char], b: &[char]) -> (r: bool)
    ensures
        r == eq_ignore_case(a@, b@),
{
    let la = lowercase(a);
    let lb = lowercase(b);
    same(&la, &lb)
}

// ---------------------------------------------------------------------------
// Prefixes and suffixes

pub open spec fn starts_with(s: Seq<char>, p: Seq<char>) -> bool {
    p.len() <= s.len() && s.take(p.len() as int) == p
}

pub open spec fn ends_with(s: Seq<char>, p: Seq<char>) -> bool {
    p.len() <= s.len() && s.skip(s.len() - p.len()) == p
}

pub fn has_prefix(s: &[char], p: &[char]) -> (r: bool)
    ensures
        r == starts_with(s@, p@),
{
    if p.len() > s.len() {
        return false;
    }
    let head = slice(s, 0, p.len());
    same(&head, p)
}

pub fn has_suffix(s: &[char], p: &[char]) -> (r: bool)
    ensures
        r == ends_with(s@, p@),
{
    if p.len() > s.len() {
        return false;
    }
    let tail = slice(s, s.len() - p.len(), s.len());
    same(&tail, p)
}

// ---------------------------------------------------------------------------
// Trimming

/// What `str::trim_start` leaves.
pub open spec fn trim_start(s: Seq<char>) -> Seq<char>
    decreases s.len(),
{
    if s.len() > 0 && is_ws(s[0]) {
        trim_start(s.drop_first())
    } else {
        s
    }
}

/// What `str::trim_end` leaves.
pub open spec fn trim_end(s: Seq<char>) -> Seq<char>
    decreases s.len(),
{
    if s.len() > 0 && is_ws(s.last()) {
        trim_end(s.drop_last())
    } else {
        s
    }
}

/// What `str::trim` leaves.
pub open spec fn trim(s: Seq<char>) -> Seq<char> {
    trim_end(trim_start(s))
}

/// Where the first character that is not white space sits.
pub fn start_of_text(s: &[char]) -> (a: usize)
    ensures
        a <= s.len(),
        trim_start(s@) == s@.skip(a as int),
        a < s.len() ==> !is_ws(s@[a as int]),
        forall|j: int| 0 <= j < a ==> is_ws(#[trigger] s@[j]),
{
    let mut a: usize = 0;
    assert(s@.skip(0) == s@);
    while a < s.len() && ws(s[a])
        invariant
            a <= s.len(),
            trim_start(s@) == trim_start(s@.skip(a as int)),
            forall|j: int| 0 <= j < a ==> is_ws(#[trigger] s@[j]),
        decreases s.len() - a,
    {
        assert(s@.skip(a as int).drop_first() == s@.skip(a + 1));
        a += 1;
    }
    a
}

/// Where the text ends once trailing white space is dropped, looking no
/// further left than `from`.
pub fn end_of_text(s: &[char], from: usize) -> (b: usize)
    requires
        from <= s.len(),
    ensures
        from <= b <= s.len(),
        trim_end(s@.subrange(from as int, s.len() as int)) == s@.subrange(from as int, b as int),
        b > from ==> !is_ws(s@[b - 1]),
        forall|j: int| b <= j < s.len() ==> is_ws(#[trigger] s@[j]),
{
    let mut b: usize = s.len();
    while b > from && ws(s[b - 1])
        invariant
            from <= b <= s.len(),
            trim_end(s@.subrange(from as int, s.len() as int)) == trim_end(
                s@.subrange(from as int, b as int),
            ),
            forall|j: int| b <= j < s.len() ==> is_ws(#[trigger] s@[j]),
        decreases b - from,
    {
        assert(s@.subrange(from as int, b as int).drop_last() == s@.subrange(
            from as int,
            b - 1,
        ));
        b -= 1;
    }
    b
}

/// `s` without leading white space.
pub fn trimmed_start(s: &[char]) -> (out: Vec<char>)
    ensures
        out@ == trim_start(s@),
{
    let a = start_of_text(s);
    assert(s@.skip(a as int) == s@.subrange(a as int, s@.len() as int));
    slice(s, a, s.len())
}

/// `s` without white space at either end.
pub fn trimmed(s: &[char]) -> (out: Vec<char>)
    ensures
        out@ == trim(s@),
{
    let a = start_of_text(s);
    assert(s@.skip(a as int) == s@.subrange(a as int, s@.len() as int));
    let b = end_of_text(s, a);
    slice(s, a, b)
}

/// Trimming leaves no white space at either end.
pub proof fn lemma_trim_ends(s: Seq<char>)
    ensures
        trim_start(s).len() > 0 ==> !is_ws(trim_start(s)[0]),
        trim_end(s).len() > 0 ==> !is_ws(trim_end(s).last()),
        trim(s).len() <= s.len(),
    decreases s.len(),
{
    if s.len() > 0 && is_ws(s[0]) {
        lemma_trim_ends(s.drop_first());
    }
    if s.len() > 0 && is_ws(s.last()) {
        lemma_trim_ends(s.drop_last());
    }
    lemma_trim_len(s);
}

proof fn lemma_trim_len(s: Seq<char>)
    ensures
        trim_start(s).len() <= s.len(),
        trim_end(s).len() <= s.len(),
        trim(s).len() <= s.len(),
    decreases s.len(),
{
    if s.len() > 0 && is_ws(s[0]) {
        lemma_trim_len(s.drop_first());
    }
    if s.len() > 0 && is_ws(s.last()) {
        lemma_trim_len(s.drop_last());
    }
    lemma_trim_end_len(trim_start(s));
}

proof fn lemma_trim_end_len(s: Seq<char>)
    ensures
        trim_end(s).len() <= s.len(),
    decreases s.len(),
{
    if s.len() > 0 && is_ws(s.last()) {
        lemma_trim_end_len(s.drop_last());
    }
}

proof fn lemma_trim_start_suffix(s: Seq<char>)
    ensures
        trim_start(s).len() <= s.len(),
        trim_start(s) == s.skip(s.len() - trim_start(s).len()),
    decreases s.len(),
{
    if s.len() > 0 && is_ws(s[0]) {
        lemma_trim_start_suffix(s.drop_first());
        assert(s.drop_first().skip(s.len() - 1 - trim_start(s).len()) =~= s.skip(
            s.len() - trim_start(s).len(),
        ));
    } else {
        assert(s.skip(0) =~= s);
    }
}

proof fn lemma_trim_end_prefix(s: Seq<char>)
    ensures
        trim_end(s).len() <= s.len(),
        trim_end(s) == s.take(trim_end(s).len() as int),
    decreases s.len(),
{
    if s.len() > 0 && is_ws(s.last()) {
        lemma_trim_end_prefix(s.drop_last());
        assert(s.drop_last().take(trim_end(s).len() as int) =~= s.take(trim_end(s).len() as int));
    } else {
        assert(s.take(s.len() as int) =~= s);
    }
}

/// Trimming only drops characters: a character that `s` never holds is not
/// in what trimming leaves.
pub proof fn lemma_trim_keeps_out(s: Seq<char>, c: char)
    requires
        forall|i: int| 0 <= i < s.len() ==> #[trigger] s[i] != c,
    ensures
        forall|i: int| 0 <= i < trim(s).len() ==> #[trigger] trim(s)[i] != c,
{
    lemma_trim_start_suffix(s);
    let t = trim_start(s);
    lemma_trim_end_prefix(t);
    let a = s.len() - t.len();
    assert forall|i: int| 0 <= i < trim(s).len() implies #[trigger] trim(s)[i] != c by {
        assert(trim(s)[i] == t[i]);
        assert(t[i] == s[i + a]);
    }
}

/// A run is blank when trimming leaves nothing of it.
pub open spec fn is_blank(s: Seq<char>) -> bool {
    forall|i: int| 0 <= i < s.len() ==> is_ws(#[trigger] s[i])
}

pub proof fn lemma_blank_trim(s: Seq<char>)
    ensures
        is_blank(s) <==> trim(s).len() == 0,
        is_blank(s) <==> trim_start(s).len() == 0,
    decreases s.len(),
{
    if s.len() > 0 && is_ws(s[0]) {
        lemma_blank_trim(s.drop_first());
        if is_blank(s.drop_first()) {
            assert forall|i: int| 0 <= i < s.len() implies is_ws(#[trigger] s[i]) by {
                if i > 0 {
                    assert(s[i] == s.drop_first()[i - 1]);
                }
            }
        }
        if is_blank(s) {
            assert forall|i: int| 0 <= i < s.drop_first().len() implies is_ws(
                #[trigger] s.drop_first()[i],
            ) by {
                assert(s.drop_first()[i] == s[i + 1]);
            }
        }
    }
    lemma_trim_ends(s);
    lemma_trim_start_nonempty_end(trim_start(s));
}

proof fn lemma_trim_start_nonempty_end(s: Seq<char>)
    requires
        s.len() > 0 ==> !is_ws(s[0]),
    ensures
        s.len() > 0 <==> trim_end(s).len() > 0,
    decreases s.len(),
{
    if s.len() > 1 && is_ws(s.last()) {
        lemma_trim_start_nonempty_end(s.drop_last());
    }
}

/// Whether a run holds nothing but white space.
pub fn blank(s: &[char]) -> (r: bool)
    ensures
        r == is_blank(s@),
        r == (trim(s@).len() == 0),
{
    proof {
        lemma_blank_trim(s@);
    }
    let a = start_of_text(s);
    a == s.len()
}

// ---------------------------------------------------------------------------
// Searching

/// Where `c` first occurs in `s`.
pub open spec fn find_char(s: Seq<char>, c: char) -> Option<int>
    decreases s.len(),
{
    if s.len() == 0 {
        None
    } else if s[0] == c {
        Some(0)
    } else {
        match find_char(s.drop_first(), c) {
            Some(k) => Some(k + 1),
            None => None,
        }
    }
}

pub proof fn lemma_find_char_at(s: Seq<char>, c: char, k: int)
    requires
        0 <= k < s.len(),
        s[k] == c,
        forall|j: int| 0 <= j < k ==> s[j] != c,
    ensures
        find_char(s, c) == Some(k),
    decreases s.len(),
{
    if k > 0 {
        assert forall|j: int| 0 <= j < k - 1 implies s.drop_first()[j] != c by {
            assert(s.drop_first()[j] == s[j + 1]);
        }
        lemma_find_char_at(s.drop_first(), c, k - 1);
    }
}

pub proof fn lemma_find_char_none(s: Seq<char>, c: char)
    requires
        forall|j: int| 0 <= j < s.len() ==> s[j] != c,
    ensures
        find_char(s, c) is None,
    decreases s.len(),
{
    if s.len() > 0 {
        assert forall|j: int| 0 <= j < s.len() - 1 implies s.drop_first()[j] != c by {
            assert(s.drop_first()[j] == s[j + 1]);
        }
        lemma_find_char_none(s.drop_first(), c);
    }
}

pub proof fn lemma_find_char(s: Seq<char>, c: char)
    ensures
        match find_char(s, c) {
            Some(k) => 0 <= k < s.len() && s[k] == c && forall|j: int|
                0 <= j < k ==> s[j] != c,
            None => forall|j: int| 0 <= j < s.len() ==> s[j] != c,
        },
    decreases s.len(),
{
    if s.len() > 0 && s[0] != c {
        lemma_find_char(s.drop_first(), c);
        match find_char(s.drop_first(), c) {
            Some(k) => {
                assert forall|j: int| 0 <= j < k + 1 implies s[j] != c by {
                    if j > 0 {
                        assert(s[j] == s.drop_first()[j - 1]);
                    }
                }
                assert(s[k + 1] == s.drop_first()[k]);
            },
            None => {
                assert forall|j: int| 0 <= j < s.len() implies s[j] != c by {
                    if j > 0 {
                        assert(s[j] == s.drop_first()[j - 1]);
                    }
                }
            },
        }
    }
}

/// Where `c` first occurs in `s`, if it does.
pub fn position(s: &[char], c: char) -> (r: Option<usize>)
    ensures
        r matches Some(k) ==> find_char(s@, c) == Some(k as int),
        r is None ==> find_char(s@, c) is None,
        r matches Some(k) ==> k < s.len() && s@[k as int] == c,
        r is None ==> forall|j: int| 0 <= j < s.len() ==> s@[j] != c,
{
    let mut i: usize = 0;
    while i < s.len()
        invariant
            i <= s.len(),
            forall|j: int| 0 <= j < i ==> s@[j] != c,
        decreases s.len() - i,
    {
        if s[i] == c {
            proof {
                lemma_find_char_at(s@, c, i as int);
            }
            return Some(i);
        }
        i += 1;
    }
    proof {
        lemma_find_char_none(s@, c);
    }
    None
}

/// Where `c` last occurs in `s`.
pub open spec fn rfind_char(s: Seq<char>, c: char) -> Option<int>
    decreases s.len(),
{
    if s.len() == 0 {
        None
    } else if s.last() == c {
        Some(s.len() - 1)
    } else {
        rfind_char(s.drop_last(), c)
    }
}

pub proof fn lemma_rfind_char(s: Seq<char>, c: char)
    ensures
        match rfind_char(s, c) {
            Some(k) => 0 <= k < s.len() && s[k] == c && forall|j: int|
                k < j < s.len() ==> s[j] != c,
            None => forall|j: int| 0 <= j < s.len() ==> s[j] != c,
        },
    decreases s.len(),
{
    if s.len() > 0 && s.last() != c {
        lemma_rfind_char(s.drop_last(), c);
        match rfind_char(s.drop_last(), c) {
            Some(k) => {
                assert(s[k] == s.drop_last()[k]);
                assert forall|j: int| k < j < s.len() implies s[j] != c by {
                    if j < s.len() - 1 {
                        assert(s[j] == s.drop_last()[j]);
                    }
                }
            },
            None => {
                assert forall|j: int| 0 <= j < s.len() implies s[j] != c by {
                    if j < s.len() - 1 {
                        assert(s[j] == s.drop_last()[j]);
                    }
                }
            },
        }
    }
}

pub proof fn lemma_rfind_char_at(s: Seq<char>, c: char, k: int)
    requires
        0 <= k < s.len(),
        s[k] == c,
        forall|j: int| k < j < s.len() ==> s[j] != c,
    ensures
        rfind_char(s, c) == Some(k),
    decreases s.len(),
{
    if k < s.len() - 1 {
        lemma_rfind_char_at(s.drop_last(), c, k);
    }
}

proof fn lemma_rfind_char_none(s: Seq<char>, c: char)
    requires
        forall|j: int| 0 <= j < s.len() ==> s[j] != c,
    ensures
        rfind_char(s, c) is None,
    decreases s.len(),
{
    if s.len() > 0 {
        lemma_rfind_char_none(s.drop_last(), c);
    }
}

/// Where `c` last occurs in `s`, if it does.
pub fn last_position(s: &[char], c: char) -> (r: Option<usize>)
    ensures
        r matches Some(k) ==> rfind_char(s@, c) == Some(k as int),
        r is None ==> rfind_char(s@, c) is None,
        r matches Some(k) ==> k < s.len() && s@[k as int] == c,
{
    let mut i: usize = s.len();
    while i > 0
        invariant
            i <= s.len(),
            forall|j: int| i <= j < s.len() ==> s@[j] != c,
        decreases i,
    {
        if s[i - 1] == c {
            proof {
                lemma_rfind_char_at(s@, c, i - 1);
            }
            return Some(i - 1);
        }
        i -= 1;
    }
    proof {
        lemma_rfind_char_none(s@, c);
    }
    None
}

/// Whether `c` occurs in `s`.
pub fn holds(s: &[char], c: char) -> (r: bool)
    ensures
        r == s@.contains(c),
{
    let p = position(s, c);
    if let Some(k) = p {
        assert(s@[k as int] == c);
    }
    p.is_some()
}

/// Where the first white space character of `s` sits.
pub open spec fn find_ws(s: Seq<char>) -> Option<int>
    decreases s.len(),
{
    if s.len() == 0 {
        None
    } else if is_ws(s[0]) {
        Some(0)
    } else {
        match find_ws(s.drop_first()) {
            Some(k) => Some(k + 1),
            None => None,
        }
    }
}

pub proof fn lemma_find_ws_from(s: Seq<char>, i: int)
    requires
        0 <= i <= s.len(),
        forall|j: int| 0 <= j < i ==> !is_ws(#[trigger] s[j]),
    ensures
        find_ws(s) == match find_ws(s.skip(i)) {
            Some(k) => Some(k + i),
            None => None::<int>,
        },
    decreases i,
{
    if i > 0 {
        assert(s.drop_first().skip(i - 1) == s.skip(i));
        assert forall|j: int| 0 <= j < i - 1 implies !is_ws(#[trigger] s.drop_first()[j]) by {
            assert(s.drop_first()[j] == s[j + 1]);
        }
        lemma_find_ws_from(s.drop_first(), i - 1);
    } else {
        assert(s.skip(0) == s);
    }
}

/// Where the first white space character of `s` sits, if any does.
pub fn ws_position(s: &[char]) -> (r: Option<usize>)
    ensures
        match r {
            Some(k) => find_ws(s@) == Some(k as int) && k < s.len(),
            None => find_ws(s@) is None,
        },
{
    let mut i: usize = 0;
    while i < s.len()
        invariant
            i <= s.len(),
            forall|j: int| 0 <= j < i ==> !is_ws(#[trigger] s@[j]),
        decreases s.len() - i,
    {
        if ws(s[i]) {
            proof {
                lemma_find_ws_from(s@, i as int);
            }
            return Some(i);
        }
        i += 1;
    }
    proof {
        lemma_find_ws_from(s@, i as int);
    }
    None
}

/// `s` with every trailing `c` dropped.
pub open spec fn drop_trailing(s: Seq<char>, c: char) -> Seq<char>
    decreases s.len(),
{
    if s.len() > 0 && s.last() == c {
        drop_trailing(s.drop_last(), c)
    } else {
        s
    }
}

/// `s` with every trailing `c` dropped.
pub fn without_trailing(s: &[char], c: char) -> (out: Vec<char>)
    ensures
        out@ == drop_trailing(s@, c),
{
    let mut b: usize = s.len();
    assert(s@.take(b as int) == s@);
    while b > 0 && s[b - 1] == c
        invariant
            b <= s.len(),
            drop_trailing(s@, c) == drop_trailing(s@.take(b as int), c),
        decreases b,
    {
        assert(s@.take(b as int).drop_last() == s@.take(b - 1));
        b -= 1;
    }
    assert(s@.take(b as int) == s@.subrange(0, b as int));
    slice(s, 0, b)
}

/// Whether any character of `s` is white space.
pub open spec fn has_ws(s: Seq<char>) -> bool {
    exists|i: int| 0 <= i < s.len() && is_ws(#[trigger] s[i])
}

pub fn any_ws(s: &[char]) -> (r: bool)
    ensures
        r == has_ws(s@),
{
    let mut i: usize = 0;
    while i < s.len()
        invariant
            i <= s.len(),
            forall|j: int| 0 <= j < i ==> !is_ws(#[trigger] s@[j]),
        decreases s.len() - i,
    {
        if ws(s[i]) {
            assert(is_ws(s@[i as int]));
            return true;
        }
        i += 1;
    }
    false
}

/// What `str::split` yields for a one-character separator: every run between
/// separators, empty ones included.
pub open spec fn split_on(s: Seq<char>, c: char) -> Seq<Seq<char>>
    decreases s.len(),
{
    match find_char(s, c) {
        Some(k) => if 0 <= k < s.len() {
            seq![s.take(k)] + split_on(s.skip(k + 1), c)
        } else {
            Seq::empty()
        },
        None => seq![s],
    }
}

/// What `str::split_once` yields for a one-character separator.
pub open spec fn split_once(s: Seq<char>, c: char) -> Option<(Seq<char>, Seq<char>)> {
    match find_char(s, c) {
        Some(k) => Some((s.take(k), s.skip(k + 1))),
        None => None,
    }
}

/// `s` without the prefix `p`, when it starts with it.
pub open spec fn strip_prefix(s: Seq<char>, p: Seq<char>) -> Option<Seq<char>> {
    if starts_with(s, p) {
        Some(s.skip(p.len() as int))
    } else {
        None
    }
}

/// `s` without the suffix `p`, when it ends with it.
pub open spec fn strip_suffix(s: Seq<char>, p: Seq<char>) -> Option<Seq<char>> {
    if ends_with(s, p) {
        Some(s.take(s.len() - p.len()))
    } else {
        None
    }
}

/// How many identifier characters `s` opens with.
pub open spec fn ident_run(s: Seq<char>) -> nat
    decreases s.len(),
{
    if s.len() > 0 && is_ident(s[0]) {
        1 + ident_run(s.drop_first())
    } else {
        0
    }
}

pub proof fn lemma_ident_run(s: Seq<char>)
    ensures
        ident_run(s) <= s.len(),
        forall|j: int| 0 <= j < ident_run(s) ==> is_ident(#[trigger] s[j]),
        ident_run(s) < s.len() ==> !is_ident(s[ident_run(s) as int]),
    decreases s.len(),
{
    if s.len() > 0 && is_ident(s[0]) {
        lemma_ident_run(s.drop_first());
        assert forall|j: int| 0 <= j < ident_run(s) implies is_ident(#[trigger] s[j]) by {
            if j > 0 {
                assert(s[j] == s.drop_first()[j - 1]);
            }
        }
        if ident_run(s) < s.len() {
            assert(s[ident_run(s) as int] == s.drop_first()[ident_run(s) - 1]);
        }
    }
}

/// Where the run of identifier characters starting at `from` ends.
pub fn ident_end(s: &[char], from: usize) -> (e: usize)
    requires
        from <= s.len(),
    ensures
        from <= e <= s.len(),
        e - from == ident_run(s@.skip(from as int)),
{
    let mut e = from;
    while e < s.len() && ident(s[e])
        invariant
            from <= e <= s.len(),
            ident_run(s@.skip(from as int)) == (e - from) + ident_run(s@.skip(e as int)),
        decreases s.len() - e,
    {
        assert(s@.skip(e as int).drop_first() == s@.skip(e + 1));
        e += 1;
    }
    e
}

/// Where the text from `from` starts once leading white space is skipped.
pub fn skip_ws(s: &[char], from: usize) -> (a: usize)
    requires
        from <= s.len(),
    ensures
        from <= a <= s.len(),
        trim_start(s@.skip(from as int)) == s@.skip(a as int),
{
    let mut a = from;
    while a < s.len() && ws(s[a])
        invariant
            from <= a <= s.len(),
            trim_start(s@.skip(from as int)) == trim_start(s@.skip(a as int)),
        decreases s.len() - a,
    {
        assert(s@.skip(a as int).drop_first() == s@.skip(a + 1));
        a += 1;
    }
    a
}

/// The bounds of `s[from..to]` once trimmed at both ends.
pub fn trim_bounds(s: &[char], from: usize, to: usize) -> (r: (usize, usize))
    requires
        from <= to <= s.len(),
    ensures
        from <= r.0 <= r.1 <= to,
        trim(s@.subrange(from as int, to as int)) == s@.subrange(r.0 as int, r.1 as int),
{
    let part = slice(s, from, to);
    let a = start_of_text(&part);
    assert(part@.skip(a as int) == part@.subrange(a as int, part@.len() as int));
    let b = end_of_text(&part, a);
    assert(part@.subrange(a as int, b as int) == s@.subrange(from + a, from + b));
    (from + a, from + b)
}

/// Where `p` first occurs in `s`.
pub open spec fn find_pat(s: Seq<char>, p: Seq<char>) -> Option<int>
    decreases s.len(),
{
    if starts_with(s, p) {
        Some(0)
    } else if s.len() == 0 {
        None
    } else {
        match find_pat(s.drop_first(), p) {
            Some(k) => Some(k + 1),
            None => None,
        }
    }
}

proof fn lemma_find_pat_step(s: Seq<char>, p: Seq<char>, i: int)
    requires
        0 <= i <= s.len(),
        !starts_with(s.skip(i), p),
        i < s.len(),
    ensures
        find_pat(s.skip(i), p) == match find_pat(s.skip(i + 1), p) {
            Some(k) => Some(k + 1),
            None => None::<int>,
        },
{
    assert(s.skip(i).drop_first() == s.skip(i + 1));
}

/// Where `p` first occurs in `s`, if it does.
pub fn find_text(s: &[char], p: &[char]) -> (r: Option<usize>)
    ensures
        r matches Some(k) ==> find_pat(s@, p@) == Some(k as int) && k + p.len() <= s.len(),
        r is None ==> find_pat(s@, p@) is None,
{
    let mut i: usize = 0;
    assert(s@.skip(0) == s@);
    while i < s.len()
        invariant
            i <= s.len(),
            find_pat(s@, p@) == match find_pat(s@.skip(i as int), p@) {
                Some(k) => Some(k + i),
                None => None::<int>,
            },
        decreases s.len() - i,
    {
        let tail = slice(s, i, s.len());
        assert(tail@ == s@.skip(i as int));
        if has_prefix(&tail, p) {
            return Some(i);
        }
        proof {
            lemma_find_pat_step(s@, p@, i as int);
        }
        i += 1;
    }
    assert(s@.skip(i as int).len() == 0);
    if p.len() == 0 {
        assert(s@.skip(i as int).take(0) =~= p@);
        assert(starts_with(s@.skip(i as int), p@));
        Some(i)
    } else {
        None
    }
}

/// `s` with every leading `c` dropped.
pub open spec fn drop_leading(s: Seq<char>, c: char) -> Seq<char>
    decreases s.len(),
{
    if s.len() > 0 && s[0] == c {
        drop_leading(s.drop_first(), c)
    } else {
        s
    }
}

/// `s` with every leading `a` or `b` dropped.
pub open spec fn drop_leading_either(s: Seq<char>, a: char, b: char) -> Seq<char>
    decreases s.len(),
{
    if s.len() > 0 && (s[0] == a || s[0] == b) {
        drop_leading_either(s.drop_first(), a, b)
    } else {
        s
    }
}

/// `s` with every leading `a` or `b` dropped (`a` and `b` may be the same).
pub fn without_leading(s: &[char], a: char, b: char) -> (out: Vec<char>)
    ensures
        out@ == drop_leading_either(s@, a, b),
        a == b ==> out@ == drop_leading(s@, a),
{
    let mut i: usize = 0;
    assert(s@.skip(0) == s@);
    while i < s.len() && (s[i] == a || s[i] == b)
        invariant
            i <= s.len(),
            drop_leading_either(s@, a, b) == drop_leading_either(s@.skip(i as int), a, b),
            a == b ==> drop_leading(s@, a) == drop_leading(s@.skip(i as int), a),
        decreases s.len() - i,
    {
        assert(s@.skip(i as int).drop_first() == s@.skip(i + 1));
        i += 1;
    }
    assert(s@.skip(i as int) == s@.subrange(i as int, s@.len() as int));
    slice(s, i, s.len())
}

/// How many decimal digits `s` opens with.
pub open spec fn digit_run(s: Seq<char>) -> nat
    decreases s.len(),
{
    if s.len() > 0 && is_digit(s[0]) {
        1 + digit_run(s.drop_first())
    } else {
        0
    }
}

pub proof fn lemma_digit_run(s: Seq<char>)
    ensures
        digit_run(s) <= s.len(),
        forall|j: int| 0 <= j < digit_run(s) ==> is_digit(#[trigger] s[j]),
    decreases s.len(),
{
    if s.len() > 0 && is_digit(s[0]) {
        lemma_digit_run(s.drop_first());
        assert forall|j: int| 0 <= j < digit_run(s) implies is_digit(#[trigger] s[j]) by {
            if j > 0 {
                assert(s[j] == s.drop_first()[j - 1]);
            }
        }
    }
}

/// A run of digits followed by anything that does not open with a digit is
/// read to its end.
pub proof fn lemma_digit_run_of(digits: Seq<char>, after: Seq<char>)
    requires
        all_digits(digits),
        after.len() == 0 || !is_digit(after[0]),
    ensures
        digit_run(digits + after) == digits.len(),
    decreases digits.len(),
{
    let s = digits + after;
    if digits.len() == 0 {
        assert(s =~= after);
    } else {
        assert(s[0] == digits[0]);
        assert(s.drop_first() =~= digits.drop_first() + after);
        assert forall|i: int| 0 <= i < digits.len() - 1 implies is_digit(
            #[trigger] digits.drop_first()[i],
        ) by {
            assert(digits.drop_first()[i] == digits[i + 1]);
        }
        lemma_digit_run_of(digits.drop_first(), after);
    }
}

/// The decimal digits `s` opens with.
pub fn leading_digits(s: &[char]) -> (out: Vec<char>)
    ensures
        out@ == s@.take(digit_run(s@) as int),
{
    let mut i: usize = 0;
    assert(s@.skip(0) == s@);
    while i < s.len() && digit(s[i])
        invariant
            i <= s.len(),
            digit_run(s@) == i + digit_run(s@.skip(i as int)),
        decreases s.len() - i,
    {
        assert(s@.skip(i as int).drop_first() == s@.skip(i + 1));
        i += 1;
    }
    assert(s@.take(i as int) == s@.subrange(0, i as int));
    slice(s, 0, i)
}

/// Whether every character of `s` may appear in an identifier.
pub open spec fn all_ident(s: Seq<char>) -> bool {
    forall|i: int| 0 <= i < s.len() ==> is_ident(#[trigger] s[i])
}

pub fn only_ident(s: &[char]) -> (r: bool)
    ensures
        r == all_ident(s@),
{
    let mut i: usize = 0;
    while i < s.len()
        invariant
            i <= s.len(),
            forall|j: int| 0 <= j < i ==> is_ident(#[trigger] s@[j]),
        decreases s.len() - i,
    {
        if !ident(s[i]) {
            assert(!is_ident(s@[i as int]));
            return false;
        }
        i += 1;
    }
    true
}

// ---------------------------------------------------------------------------
// Lines

/// A line without the one carriage return that may end it.
pub open spec fn strip_cr(s: Seq<char>) -> Seq<char> {
    if s.len() > 0 && s.last() == '\r' {
        s.drop_last()
    } else {
        s
    }
}

/// What `str::lines` yields: the text split at each line feed, a carriage
/// return before the feed dropped, and no empty line after a final feed.
pub open spec fn lines(s: Seq<char>) -> Seq<Seq<char>>
    decreases s.len(),
{
    if s.len() == 0 {
        Seq::empty()
    } else {
        match find_char(s, '\n') {
            Some(k) => {
                if 0 <= k < s.len() {
                    seq![strip_cr(s.take(k))] + lines(s.skip(k + 1))
                } else {
                    Seq::empty()
                }
            },
            None => seq![strip_cr(s)],
        }
    }
}

fn strip_cr_of(s: Vec<char>) -> (out: Vec<char>)
    ensures
        out@ == strip_cr(s@),
{
    let mut s = s;
    if s.len() > 0 && s[s.len() - 1] == '\r' {
        s.pop();
    }
    s
}

/// The lines of `s`, as `str::lines` splits them.
pub fn split_lines(s: &[char]) -> (out: Vec<Vec<char>>)
    ensures
        out.len() == lines(s@).len(),
        forall|i: int| 0 <= i < out.len() ==> #[trigger] out[i]@ == lines(s@)[i],
{
    let mut out: Vec<Vec<char>> = Vec::new();
    let ghost mut done: Seq<Seq<char>> = Seq::empty();
    let mut start: usize = 0;
    let mut i: usize = 0;
    assert(s@.skip(0) == s@);
    while i < s.len()
        invariant
            start <= i <= s.len(),
            out.len() == done.len(),
            forall|m: int| 0 <= m < out.len() ==> #[trigger] out[m]@ == done[m],
            lines(s@) == done + lines(s@.skip(start as int)),
            forall|j: int| start <= j < i ==> s@[j] != '\n',
        decreases s.len() - i,
    {
        if s[i] == '\n' {
            let ghost rest = s@.skip(start as int);
            proof {
                assert forall|j: int| 0 <= j < i - start implies rest[j] != '\n' by {
                    assert(rest[j] == s@[start + j]);
                }
                lemma_find_char_at(rest, '\n', i - start);
                assert(rest.take(i - start) == s@.subrange(start as int, i as int));
                assert(rest.skip(i - start + 1) == s@.skip(i + 1));
            }
            let piece = strip_cr_of(slice(s, start, i));
            proof {
                done = done.push(piece@);
                assert(lines(s@) == done + lines(s@.skip(i + 1)));
            }
            out.push(piece);
            start = i + 1;
        }
        i += 1;
    }
    if start < s.len() {
        let ghost rest = s@.skip(start as int);
        proof {
            assert forall|j: int| 0 <= j < rest.len() implies rest[j] != '\n' by {
                assert(rest[j] == s@[start + j]);
            }
            lemma_find_char_none(rest, '\n');
            assert(rest == s@.subrange(start as int, s@.len() as int));
        }
        let piece = strip_cr_of(slice(s, start, s.len()));
        proof {
            done = done.push(piece@);
            assert(lines(s@) == done);
        }
        out.push(piece);
    } else {
        assert(s@.skip(start as int).len() == 0);
        assert(lines(s@) == done);
    }
    out
}

// ---------------------------------------------------------------------------
// Numbers

/// The decimal digit for `d`.
pub open spec fn digit_char(d: nat) -> char {
    (('0' as u32) + d) as char
}

/// How `usize::to_string` writes `n`.
pub open spec fn decimal(n: nat) -> Seq<char>
    decreases n,
{
    if n < 10 {
        seq![digit_char(n)]
    } else {
        decimal(n / 10).push(digit_char(n % 10))
    }
}

/// `n` written in decimal.
pub fn decimal_of(n: usize) -> (out: Vec<char>)
    ensures
        out@ == decimal(n as nat),
    decreases n,
{
    let d = (n % 10) as u8;
    let c = ((48u8 + d) as char);
    assert(c == digit_char((n % 10) as nat));
    if n < 10 {
        let mut out: Vec<char> = Vec::new();
        out.push(c);
        out
    } else {
        let mut out = decimal_of(n / 10);
        out.push(c);
        out
    }
}

/// The value of a run of decimal digits.
pub open spec fn digits_value(s: Seq<char>) -> nat
    decreases s.len(),
{
    if s.len() == 0 {
        0
    } else {
        digits_value(s.drop_last()) * 10 + ((s.last() as u32) - ('0' as u32)) as nat
    }
}

pub open spec fn all_digits(s: Seq<char>) -> bool {
    forall|i: int| 0 <= i < s.len() ==> is_digit(#[trigger] s[i])
}

/// What `str::parse::<usize>` gives: digits with an optional leading `+`, and
/// a value that fits.
pub open spec fn parse_usize(s: Seq<char>) -> Option<nat> {
    let body = if s.len() > 0 && s[0] == '+' {
        s.drop_first()
    } else {
        s
    };
    if body.len() > 0 && all_digits(body) && digits_value(body) <= usize::MAX {
        Some(digits_value(body))
    } else {
        None
    }
}

/// A number written in decimal reads back as itself.
pub proof fn decimal_reads_back(n: nat)
    requires
        n <= usize::MAX,
    ensures
        decimal(n).len() > 0,
        all_digits(decimal(n)),
        digits_value(decimal(n)) == n,
        parse_usize(decimal(n)) == Some(n),
    decreases n,
{
    let d = n % 10;
    let c = digit_char(d);
    assert(d < 10);
    assert(c as u32 == 48 + d);
    if n < 10 {
        let s = decimal(n);
        assert(s == seq![c]);
        assert(s.drop_last() =~= Seq::<char>::empty());
        assert(digits_value(Seq::<char>::empty()) == 0);
        assert(s.last() == c);
        assert(n == d);
        assert(digits_value(s) == n);
    } else {
        decimal_reads_back(n / 10);
        let s = decimal(n);
        let front = decimal(n / 10);
        assert(s.drop_last() =~= front);
        assert(s.last() == c);
        assert forall|i: int| 0 <= i < s.len() implies is_digit(#[trigger] s[i]) by {
            if i < front.len() {
                assert(s[i] == front[i]);
            }
        }
        vstd::arithmetic::div_mod::lemma_fundamental_div_mod(n as int, 10);
        assert(digits_value(s) == digits_value(front) * 10 + d);
        assert(digits_value(s) == n);
    }
    assert(decimal(n)[0] != '+') by {
        assert(is_digit(decimal(n)[0]));
    }
}

/// Read a decimal number the way `str::parse::<usize>` does.
pub fn parse_decimal(s: &[char]) -> (r: Option<usize>)
    ensures
        r matches Some(n) ==> parse_usize(s@) == Some(n as nat),
        r is None ==> parse_usize(s@) is None,
{
    let start: usize = if s.len() > 0 && s[0] == '+' {
        1
    } else {
        0
    };
    let ghost body = s@.skip(start as int);
    assert(start == 1 ==> body == s@.drop_first());
    assert(start == 0 ==> body == s@);
    assert(body == (if s@.len() > 0 && s@[0] == '+' { s@.drop_first() } else { s@ }));
    if start >= s.len() {
        assert(body.len() == 0);
        return None;
    }
    let mut value: usize = 0;
    let mut i = start;
    let mut fits = true;
    while i < s.len()
        invariant
            start <= i <= s.len(),
            body == s@.skip(start as int),
            body == (if s@.len() > 0 && s@[0] == '+' { s@.drop_first() } else { s@ }),
            forall|j: int| start <= j < i ==> is_digit(#[trigger] s@[j]),
            fits ==> value as nat == digits_value(s@.subrange(start as int, i as int)),
            !fits ==> digits_value(s@.subrange(start as int, i as int)) > usize::MAX,
        decreases s.len() - i,
    {
        let c = s[i];
        if !digit(c) {
            assert(body[i - start] == c);
            assert(!all_digits(body));
            return None;
        }
        let d = (c as u32 - 48) as usize;
        let ghost prev = s@.subrange(start as int, i as int);
        let ghost next = s@.subrange(start as int, i + 1);
        assert(next.drop_last() == prev);
        assert(next.last() == c);
        assert(digits_value(next) == digits_value(prev) * 10 + d);
        if fits {
            if value > (usize::MAX - d) / 10 {
                fits = false;
                assert(digits_value(next) > usize::MAX) by (nonlinear_arith)
                    requires
                        value > (usize::MAX - d) / 10,
                        digits_value(next) == value * 10 + d,
                        d <= 9,
                ;
            } else {
                assert(value * 10 + d <= usize::MAX) by (nonlinear_arith)
                    requires
                        value <= (usize::MAX - d) / 10,
                        d <= 9,
                ;
                value = value * 10 + d;
            }
        } else {
            assert(digits_value(next) > usize::MAX) by (nonlinear_arith)
                requires
                    digits_value(prev) > usize::MAX,
                    digits_value(next) == digits_value(prev) * 10 + d,
            ;
        }
        i += 1;
    }
    assert(s@.subrange(start as int, s@.len() as int) == body);
    assert(all_digits(body)) by {
        assert forall|j: int| 0 <= j < body.len() implies is_digit(#[trigger] body[j]) by {
            assert(body[j] == s@[start + j]);
        }
    }
    if fits {
        Some(value)
    } else {
        None
    }
}

} // verus!
