//! What each relationship's step badge says, and what the legend says.
use vstd::prelude::*;

use crate::text::{
    alpha, chars_of, concat, decimal, decimal_of, digit_run, holds, is_alpha, is_digit,
    leading_digits, lemma_digit_run_of, slice, string_of, trim, trimmed,
};

verus! {

/// The spacing a step marker may be padded with: ASCII white space and the
/// vertical tab.
pub open spec fn is_pad(c: char) -> bool {
    c == ' ' || c == '\t' || c == '\n' || c == '\r' || c == '\u{b}' || c == '\u{c}'
}

fn pad(c: char) -> (r: bool)
    ensures
        r == is_pad(c),
{
    c == ' ' || c == '\t' || c == '\n' || c == '\r' || c == '\u{b}' || c == '\u{c}'
}

/// `s` without its leading padding.
pub open spec fn skip_pad(s: Seq<char>) -> Seq<char>
    decreases s.len(),
{
    if s.len() > 0 && is_pad(s[0]) {
        skip_pad(s.drop_first())
    } else {
        s
    }
}

/// Where the padding that `s` opens with at `from` ends.
fn past_pad(s: &[char], from: usize) -> (a: usize)
    requires
        from <= s.len(),
    ensures
        from <= a <= s.len(),
        skip_pad(s@.skip(from as int)) == s@.skip(a as int),
{
    let mut a = from;
    while a < s.len() && pad(s[a])
        invariant
            from <= a <= s.len(),
            skip_pad(s@.skip(from as int)) == skip_pad(s@.skip(a as int)),
        decreases s.len() - a,
    {
        assert(s@.skip(a as int).drop_first() == s@.skip(a + 1));
        a += 1;
    }
    a
}

/// A leading `1.`, `3a)` or similar, and the text that follows it, when the
/// label opens with one and the text stays on one line.
pub open spec fn marked_step_of(label: Seq<char>) -> Option<(Seq<char>, Seq<char>)> {
    let rest = skip_pad(label);
    let n = digit_run(rest);
    let after = rest.skip(n as int);
    let letter: int = if after.len() > 0 && is_alpha(after[0]) {
        1
    } else {
        0
    };
    let spaced = skip_pad(after.skip(letter));
    if n == 0 || spaced.len() == 0 || !(spaced[0] == '.' || spaced[0] == ')') {
        None
    } else {
        let body = skip_pad(spaced.drop_first());
        if body.contains('\n') {
            None
        } else {
            Some((rest.take(n + letter), body))
        }
    }
}

/// A leading `1.`, `3a)` or similar, and whatever follows it.
///
/// A marker whose text runs onto a second line is not a marker: the label
/// then keeps its own text and takes the declaration number.
pub fn marked_step(label: &str) -> (r: Option<(String, String)>)
    ensures
        match r {
            Some((step, body)) => marked_step_of(label@) == Some((step@, body@)),
            None => marked_step_of(label@) is None,
        },
{
    let s = chars_of(label);
    let a = past_pad(&s, 0);
    assert(s@.skip(0) == s@);
    let ghost rest = s@.skip(a as int);
    assert(rest == skip_pad(label@));
    let rest_chars = slice(&s, a, s.len());
    assert(rest_chars@ == rest);
    let digits = leading_digits(&rest_chars);
    let n = digits.len();
    proof {
        crate::text::lemma_digit_run(rest);
    }
    assert(n == digit_run(rest));
    if n == 0 {
        assert(marked_step_of(label@) is None);
        return None;
    }
    let mut m = a + n;
    assert(s@.skip(m as int) == rest.skip(n as int));
    let letter: usize = if m < s.len() && alpha(s[m]) {
        1
    } else {
        0
    };
    m = m + letter;
    assert(s@.skip(m as int) == rest.skip(n as int).skip(letter as int));
    let k = past_pad(&s, m);
    if k >= s.len() || !(s[k] == '.' || s[k] == ')') {
        return None;
    }
    assert(s@.skip(k as int).drop_first() == s@.skip(k + 1));
    let b = past_pad(&s, k + 1);
    let body = slice(&s, b, s.len());
    assert(body@ == s@.skip(b as int));
    if holds(&body, '\n') {
        return None;
    }
    let step = slice(&s, a, a + n + letter);
    assert(step@ == rest.take(n + letter));
    Some((string_of(&step), string_of(&body)))
}

/// The step a relationship's badge shows and the text its legend line
/// carries, for the relationship declared at `index`.
pub open spec fn step_text(label: Seq<char>, techn: Option<Seq<char>>, index: nat) -> (
    Seq<char>,
    Seq<char>,
) {
    let (step, body) = match marked_step_of(label) {
        Some(p) => p,
        None => (decimal(index + 1), label),
    };
    let text = match techn {
        Some(t) => trim(body + " ["@ + t + "]"@),
        None => trim(body),
    };
    (step, text)
}

/// Split a relationship label into its step badge and its legend text.
///
/// An author who already numbered the steps — `3a. Spawns workspace-wide`, as
/// a dynamic diagram does — keeps their own numbering. Everything else is
/// numbered in declaration order, from one. A technology is appended to the
/// legend text in brackets.
pub fn step_of(label: &str, techn: Option<&str>, index: usize) -> (r: (String, String))
    requires
        index < usize::MAX,
    ensures
        (r.0@, r.1@) == step_text(
            label@,
            match techn {
                Some(t) => Some(t@),
                None => None,
            },
            index as nat,
        ),
{
    let (step, body) = match marked_step(label) {
        Some(p) => p,
        None => (string_of(&decimal_of(index + 1)), label.to_owned()),
    };
    let b = chars_of(body.as_str());
    let text = match techn {
        Some(t) => {
            let open = chars_of(" [");
            let close = chars_of("]");
            let whole = concat(&concat(&concat(&b, &open), &chars_of(t)), &close);
            trimmed(&whole)
        },
        None => trimmed(&b),
    };
    (step, string_of(&text))
}

/// A label that opens with its own number: digits, an optional letter, a
/// `.` or `)`, one space, and the text.
pub open spec fn numbered_label(
    digits: Seq<char>,
    letter: Option<char>,
    close: char,
    body: Seq<char>,
) -> Seq<char> {
    let step = match letter {
        Some(c) => digits + seq![c],
        None => digits,
    };
    step + seq![close, ' '] + body
}

/// A step the author numbered is kept, with the text after its marker; a
/// label that does not open with a number is numbered by its place in the
/// declarations, from one, and keeps its whole text. Either way a
/// technology is appended to the text in brackets.
pub proof fn an_authors_number_is_kept(
    digits: Seq<char>,
    letter: Option<char>,
    close: char,
    body: Seq<char>,
    plain: Seq<char>,
    techn: Option<Seq<char>>,
    index: nat,
)
    requires
        digits.len() > 0,
        forall|i: int| 0 <= i < digits.len() ==> is_digit(#[trigger] digits[i]),
        letter matches Some(c) ==> is_alpha(c),
        close == '.' || close == ')',
        body.len() == 0 || !is_pad(body[0]),
        !body.contains('\n'),
        plain.len() > 0,
        !is_pad(plain[0]),
        !is_digit(plain[0]),
    ensures
        step_text(numbered_label(digits, letter, close, body), techn, index) == (
            match letter {
                Some(c) => digits + seq![c],
                None => digits,
            },
            match techn {
                Some(t) => trim(body + " ["@ + t + "]"@),
                None => trim(body),
            },
        ),
        step_text(plain, techn, index) == (
            decimal(index + 1),
            match techn {
                Some(t) => trim(plain + " ["@ + t + "]"@),
                None => trim(plain),
            },
        ),
{
    let step = match letter {
        Some(c) => digits + seq![c],
        None => digits,
    };
    let label = numbered_label(digits, letter, close, body);
    let marker = seq![close, ' '] + body;
    let after = match letter {
        Some(c) => seq![c] + marker,
        None => marker,
    };
    assert(label =~= digits + after);
    assert(label[0] == digits[0]);
    assert(skip_pad(label) == label);
    lemma_digit_run_of(digits, after);
    assert(label.skip(digits.len() as int) =~= after);
    let spaced = after.skip(if letter is Some { 1int } else { 0int });
    assert(spaced =~= marker);
    assert(skip_pad(marker) == marker);
    assert(marker.drop_first() =~= seq![' '] + body);
    assert((seq![' '] + body).drop_first() =~= body);
    assert(skip_pad(seq![' '] + body) == skip_pad(body));
    assert(skip_pad(body) == body);
    assert(label.take(step.len() as int) =~= step);
    assert(skip_pad(plain) == plain);
    assert(digit_run(plain) == 0);
}

} // verus!
