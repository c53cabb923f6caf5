//! The CSS a C4 drawing carries with it.
//!
//! Every colour is a theme token, so a page restyles the diagram by changing
//! one variable and nothing is re-rendered.
//!
//! The hover behaviour is declarative because the viewer embeds the drawing
//! with no inline scripting allowed: `:has()` gives the cross-reference, so
//! hovering either member of a step selects both. One group of rules per step
//! is unavoidable, as CSS cannot say "the element whose attribute matches
//! mine".
use vstd::prelude::*;

use crate::text::{chars_of, is_ident, ident};

verus! {

/// The class every outline glyph is drawn with, so one rule can round the
/// ends of all of them.
pub const OUTLINE_CLASS: &'static str = "icon-outline";

/// Rules that do not depend on the diagram.
pub const STATIC_RULES: &'static str = "\
text{font-family:Inter,system-ui,sans-serif}\
.c4-box{fill:var(--_node-fill);stroke:var(--_node-stroke);stroke-width:1}\
.c4-box-ext{stroke-dasharray:5 3}\
.c4-icon{color:var(--_text)}\
.c4-accent{fill:var(--ags-accent,var(--_arrow))}\
.c4-tag{fill:var(--_text-sec)}\
.c4-tag-person{fill:var(--ags-accent,var(--_arrow))}\
.c4-label{fill:var(--_text)}\
.c4-techn{fill:var(--_text-muted)}\
.c4-descr{fill:var(--_text-sec)}\
.c4-edge{fill:none;stroke:var(--_line);stroke-width:1}\
.c4-arrow-head{fill:var(--_arrow)}\
.c4-boundary{fill:none;stroke:var(--_node-stroke);stroke-dasharray:4 4}\
.c4-boundary-label{fill:var(--_text-sec)}\
.c4-title{fill:var(--_text)}\
.c4-badge{fill:var(--ags-bg);stroke:var(--_arrow);stroke-width:1.2}\
.c4-badge-text{fill:var(--_text)}\
.c4-tip-hit{fill:transparent}\
.c4-tip{opacity:0;pointer-events:none}\
.c4-tip-box{fill:var(--_arrow)}\
.c4-tip-text{fill:var(--ags-bg)}\
.c4-step{cursor:default}";

/// The characters of a step marker a selector can carry: ASCII letters,
/// digits, `_` and `-`, in order.
pub open spec fn safe_of(s: Seq<char>) -> Seq<char>
    decreases s.len(),
{
    if s.len() == 0 {
        Seq::empty()
    } else if is_ident(s.last()) || s.last() == '-' {
        safe_of(s.drop_last()).push(s.last())
    } else {
        safe_of(s.drop_last())
    }
}

/// Keep a step marker to characters a selector can carry.
///
/// The marker comes from the author's own numbering, so it is not guaranteed
/// to be a bare digit, and it lands inside an attribute selector.
pub fn selector_safe(step: &str) -> (out: String)
    ensures
        out@ == safe_of(step@),
{
    let cs = chars_of(step);
    let mut out = String::new();
    let mut i: usize = 0;
    assert(cs@.take(0) =~= Seq::<char>::empty());
    while i < cs.len()
        invariant
            i <= cs.len(),
            cs@ == step@,
            out@ == safe_of(cs@.take(i as int)),
        decreases cs.len() - i,
    {
        assert(cs@.take(i + 1).drop_last() == cs@.take(i as int));
        let c = cs[i];
        if ident(c) || c == '-' {
            out.push(c);
        }
        i += 1;
    }
    assert(cs@.take(cs@.len() as int) == cs@);
    out
}

/// `svg:has(.c4-step[data-step="s"]:hover)`: the whole drawing, while any
/// member of step `s` is hovered.
pub open spec fn hovered(s: Seq<char>) -> Seq<char> {
    "svg:has(.c4-step[data-step=\""@ + s + "\"]:hover)"@
}

/// A rule that applies while step `s` is hovered.
pub open spec fn hover_rule(s: Seq<char>, target: Seq<char>, body: Seq<char>) -> Seq<char> {
    hovered(s) + target + s + body
}

/// A rule that shows the bubble of step `s` while one of its parts is hovered.
pub open spec fn tip_rule(s: Seq<char>, part: Seq<char>, at: Seq<char>) -> Seq<char> {
    "svg:has(.c4-step[data-step=\""@ + s + part + s + at
}

/// The rules that pair the badge of step `s` with its wire and its
/// description bubbles.
pub open spec fn rule_group(s: Seq<char>) -> Seq<char> {
    hover_rule(
        s,
        " .c4-step[data-step=\""@,
        "\"] .c4-badge{fill:var(--_arrow);stroke:var(--_arrow)}"@,
    ) + hover_rule(s, " .c4-step[data-step=\""@, "\"] .c4-badge-text{fill:var(--ags-bg)}"@)
        + hover_rule(s, " .c4-edge[data-step=\""@, "\"]{stroke:var(--_arrow);stroke-width:2}"@)
        + tip_rule(
        s,
        "\"] .c4-badge:hover) .c4-tip[data-step=\""@,
        "\"][data-at=\"badge\"],"@,
    ) + tip_rule(
        s,
        "\"] .c4-badge-text:hover) .c4-tip[data-step=\""@,
        "\"][data-at=\"badge\"],"@,
    ) + tip_rule(
        s,
        "\"] .c4-tip-hit:hover) .c4-tip[data-step=\""@,
        "\"][data-at=\"tip\"]{opacity:1}"@,
    )
}

/// The markers already given rules, and the rules so far, after a run of
/// steps: a marker with nothing usable left, or one seen before, adds none.
pub open spec fn rules_of(steps: Seq<Seq<char>>) -> (Seq<Seq<char>>, Seq<char>)
    decreases steps.len(),
{
    if steps.len() == 0 {
        (Seq::empty(), Seq::empty())
    } else {
        let (seen, out) = rules_of(steps.drop_last());
        let s = safe_of(steps.last());
        if s.len() == 0 || seen.contains(s) {
            (seen, out)
        } else {
            (seen.push(s), out + rule_group(s))
        }
    }
}

fn append_hover(out: &mut String, s: &str, target: &str, body: &str)
    ensures
        final(out)@ == old(out)@ + hover_rule(s@, target@, body@),
{
    let ghost start = out@;
    out.append("svg:has(.c4-step[data-step=\"");
    out.append(s);
    out.append("\"]:hover)");
    out.append(target);
    out.append(s);
    out.append(body);
    assert(out@ =~= start + hover_rule(s@, target@, body@));
}

fn append_tip(out: &mut String, s: &str, part: &str, at: &str)
    ensures
        final(out)@ == old(out)@ + tip_rule(s@, part@, at@),
{
    let ghost start = out@;
    out.append("svg:has(.c4-step[data-step=\"");
    out.append(s);
    out.append(part);
    out.append(s);
    out.append(at);
    assert(out@ =~= start + tip_rule(s@, part@, at@));
}

fn append_group(out: &mut String, s: &str)
    ensures
        final(out)@ == old(out)@ + rule_group(s@),
{
    let ghost start = out@;
    append_hover(out, s, " .c4-step[data-step=\"", "\"] .c4-badge{fill:var(--_arrow);stroke:var(--_arrow)}");
    append_hover(out, s, " .c4-step[data-step=\"", "\"] .c4-badge-text{fill:var(--ags-bg)}");
    append_hover(out, s, " .c4-edge[data-step=\"", "\"]{stroke:var(--_arrow);stroke-width:2}");
    append_tip(out, s, "\"] .c4-badge:hover) .c4-tip[data-step=\"", "\"][data-at=\"badge\"],");
    append_tip(out, s, "\"] .c4-badge-text:hover) .c4-tip[data-step=\"", "\"][data-at=\"badge\"],");
    append_tip(out, s, "\"] .c4-tip-hit:hover) .c4-tip[data-step=\"", "\"][data-at=\"tip\"]{opacity:1}");
    assert(out@ =~= start + rule_group(s@));
}

/// The step markers as plain values.
pub open spec fn steps_view(steps: Seq<String>) -> Seq<Seq<char>> {
    steps.map_values(|s: String| s@)
}

fn seen_before(seen: &Vec<String>, s: &String) -> (r: bool)
    ensures
        r == steps_view(seen@).contains(s@),
{
    let mut j: usize = 0;
    while j < seen.len()
        invariant
            j <= seen.len(),
            forall|k: int| 0 <= k < j ==> seen@[k]@ != s@,
        decreases seen.len() - j,
    {
        if seen[j] == *s {
            assert(steps_view(seen@)[j as int] == s@);
            return true;
        }
        j += 1;
    }
    assert forall|k: int| 0 <= k < steps_view(seen@).len() implies steps_view(seen@)[k] != s@ by {
        assert(seen@[k]@ != s@);
    }
    false
}

/// Pair each badge with its wire and its description bubble.
pub fn step_rules(steps: &[String]) -> (out: String)
    ensures
        out@ == rules_of(steps_view(steps@)).1,
{
    let ghost all = steps_view(steps@);
    let mut seen: Vec<String> = Vec::new();
    let mut out = String::new();
    let mut i: usize = 0;
    assert(all.take(0) =~= Seq::<Seq<char>>::empty());
    assert(steps_view(seen@) =~= Seq::<Seq<char>>::empty());
    while i < steps.len()
        invariant
            i <= steps.len(),
            all == steps_view(steps@),
            rules_of(all.take(i as int)) == (steps_view(seen@), out@),
        decreases steps.len() - i,
    {
        assert(all.take(i + 1).drop_last() == all.take(i as int));
        assert(all.take(i + 1).last() == steps@[i as int]@);
        let s = selector_safe(steps[i].as_str());
        if !s.as_str().is_empty() && !seen_before(&seen, &s) {
            append_group(&mut out, s.as_str());
            let ghost before = seen@;
            seen.push(s);
            assert(steps_view(seen@) =~= steps_view(before).push(s@));
        }
        i += 1;
    }
    assert(all.take(all.len() as int) == all);
    out
}

/// The whole style block: what `style` writes for the given tokens and steps.
pub open spec fn style_of(tokens: Seq<char>, steps: Seq<Seq<char>>) -> Seq<char> {
    tokens + STATIC_RULES@ + "."@ + OUTLINE_CLASS@ + "{stroke-linecap:round;stroke-linejoin:round}"@
        + rules_of(steps).1
}

/// The whole style block: derived tokens first, so the rules can read them,
/// then the class rules, then one hover group per distinct step.
pub fn style(tokens: &str, steps: &[String]) -> (css: String)
    ensures
        css@ == style_of(tokens@, steps_view(steps@)),
{
    let mut out = String::from_str(tokens);
    out.append(STATIC_RULES);
    out.append(".");
    out.append(OUTLINE_CLASS);
    out.append("{stroke-linecap:round;stroke-linejoin:round}");
    let rules = step_rules(steps);
    out.append(rules.as_str());
    out
}

/// A selector-safe marker holds only ASCII letters, digits, `_` and `-`.
pub proof fn safe_markers_hold_only_selector_characters(s: Seq<char>)
    ensures
        forall|i: int|
            0 <= i < safe_of(s).len() ==> is_ident(#[trigger] safe_of(s)[i]) || safe_of(s)[i]
                == '-',
    decreases s.len(),
{
    if s.len() > 0 {
        safe_markers_hold_only_selector_characters(s.drop_last());
        let earlier = safe_of(s.drop_last());
        if is_ident(s.last()) || s.last() == '-' {
            assert forall|i: int| 0 <= i < safe_of(s).len() implies is_ident(
                #[trigger] safe_of(s)[i],
            ) || safe_of(s)[i] == '-' by {
                if i < earlier.len() {
                    assert(safe_of(s)[i] == earlier[i]);
                }
            }
        }
    }
}

proof fn lemma_seen_markers(steps: Seq<Seq<char>>, k: int)
    requires
        0 <= k < steps.len(),
        safe_of(steps[k]).len() > 0,
    ensures
        rules_of(steps).0.contains(safe_of(steps[k])),
    decreases steps.len(),
{
    let (seen, out) = rules_of(steps.drop_last());
    let s = safe_of(steps.last());
    if k < steps.len() - 1 {
        assert(steps.drop_last()[k] == steps[k]);
        lemma_seen_markers(steps.drop_last(), k);
        if !(s.len() == 0 || seen.contains(s)) {
            let w = choose|w: int| 0 <= w < seen.len() && seen[w] == safe_of(steps[k]);
            assert(seen.push(s)[w] == safe_of(steps[k]));
        }
    } else {
        if !(s.len() == 0 || seen.contains(s)) {
            assert(seen.push(s)[seen.len() as int] == s);
        }
    }
}

/// A step named twice emits one group of rules: a step whose marker is
/// empty once made selector-safe, or matches an earlier step's, adds nothing
/// to the style block.
pub proof fn a_repeated_step_adds_nothing(tokens: Seq<char>, steps: Seq<Seq<char>>, again: Seq<char>)
    requires
        safe_of(again).len() == 0 || exists|k: int|
            0 <= k < steps.len() && #[trigger] safe_of(steps[k]) == safe_of(again),
    ensures
        style_of(tokens, steps.push(again)) == style_of(tokens, steps),
{
    assert(steps.push(again).drop_last() == steps);
    if safe_of(again).len() > 0 {
        let k = choose|k: int| 0 <= k < steps.len() && #[trigger] safe_of(steps[k]) == safe_of(again);
        lemma_seen_markers(steps, k);
    }
}

proof fn lemma_joined_lacks(a: Seq<char>, b: Seq<char>, c: char)
    ensures
        (a + b).contains(c) <==> a.contains(c) || b.contains(c),
{
    let j = a + b;
    if j.contains(c) {
        let i = choose|i: int| 0 <= i < j.len() && j[i] == c;
        if i < a.len() {
            assert(a[i] == c);
        } else {
            assert(b[i - a.len()] == c);
        }
    }
    if a.contains(c) {
        let i = choose|i: int| 0 <= i < a.len() && a[i] == c;
        assert(j[i] == c);
    }
    if b.contains(c) {
        let i = choose|i: int| 0 <= i < b.len() && b[i] == c;
        assert(j[i + a.len()] == c);
    }
}

proof fn lemma_group_lacks_hash(s: Seq<char>)
    requires
        !s.contains('#'),
    ensures
        !rule_group(s).contains('#'),
{
    let h1 = "svg:has(.c4-step[data-step=\""@;
    let h2 = "\"]:hover)"@;
    let t1 = " .c4-step[data-step=\""@;
    let b1 = "\"] .c4-badge{fill:var(--_arrow);stroke:var(--_arrow)}"@;
    let b2 = "\"] .c4-badge-text{fill:var(--ags-bg)}"@;
    let t3 = " .c4-edge[data-step=\""@;
    let b3 = "\"]{stroke:var(--_arrow);stroke-width:2}"@;
    let p1 = "\"] .c4-badge:hover) .c4-tip[data-step=\""@;
    let a1 = "\"][data-at=\"badge\"],"@;
    let p2 = "\"] .c4-badge-text:hover) .c4-tip[data-step=\""@;
    let p3 = "\"] .c4-tip-hit:hover) .c4-tip[data-step=\""@;
    let a3 = "\"][data-at=\"tip\"]{opacity:1}"@;
    reveal_strlit("svg:has(.c4-step[data-step=\"");
    reveal_strlit("\"]:hover)");
    reveal_strlit(" .c4-step[data-step=\"");
    reveal_strlit("\"] .c4-badge{fill:var(--_arrow);stroke:var(--_arrow)}");
    reveal_strlit("\"] .c4-badge-text{fill:var(--ags-bg)}");
    reveal_strlit(" .c4-edge[data-step=\"");
    reveal_strlit("\"]{stroke:var(--_arrow);stroke-width:2}");
    reveal_strlit("\"] .c4-badge:hover) .c4-tip[data-step=\"");
    reveal_strlit("\"][data-at=\"badge\"],");
    reveal_strlit("\"] .c4-badge-text:hover) .c4-tip[data-step=\"");
    reveal_strlit("\"] .c4-tip-hit:hover) .c4-tip[data-step=\"");
    reveal_strlit("\"][data-at=\"tip\"]{opacity:1}");
    assert(!h1.contains('#') && !h2.contains('#') && !t1.contains('#') && !b1.contains('#'));
    assert(!b2.contains('#') && !t3.contains('#') && !b3.contains('#') && !p1.contains('#'));
    assert(!a1.contains('#') && !p2.contains('#') && !p3.contains('#') && !a3.contains('#'));
    lemma_joined_lacks(h1, s, '#');
    lemma_joined_lacks(h1 + s, h2, '#');
    assert(hovered(s) == h1 + s + h2);
    let hv = hovered(s);
    lemma_joined_lacks(hv, t1, '#');
    lemma_joined_lacks(hv + t1, s, '#');
    lemma_joined_lacks(hv + t1 + s, b1, '#');
    lemma_joined_lacks(hv + t1 + s, b2, '#');
    lemma_joined_lacks(hv, t3, '#');
    lemma_joined_lacks(hv + t3, s, '#');
    lemma_joined_lacks(hv + t3 + s, b3, '#');
    let r1 = hover_rule(s, t1, b1);
    let r2 = hover_rule(s, t1, b2);
    let r3 = hover_rule(s, t3, b3);
    lemma_joined_lacks(h1, s, '#');
    lemma_joined_lacks(h1 + s, p1, '#');
    lemma_joined_lacks(h1 + s + p1, s, '#');
    lemma_joined_lacks(h1 + s + p1 + s, a1, '#');
    lemma_joined_lacks(h1 + s, p2, '#');
    lemma_joined_lacks(h1 + s + p2, s, '#');
    lemma_joined_lacks(h1 + s + p2 + s, a1, '#');
    lemma_joined_lacks(h1 + s, p3, '#');
    lemma_joined_lacks(h1 + s + p3, s, '#');
    lemma_joined_lacks(h1 + s + p3 + s, a3, '#');
    let q1 = tip_rule(s, p1, a1);
    let q2 = tip_rule(s, p2, a1);
    let q3 = tip_rule(s, p3, a3);
    lemma_joined_lacks(r1, r2, '#');
    lemma_joined_lacks(r1 + r2, r3, '#');
    lemma_joined_lacks(r1 + r2 + r3, q1, '#');
    lemma_joined_lacks(r1 + r2 + r3 + q1, q2, '#');
    lemma_joined_lacks(r1 + r2 + r3 + q1 + q2, q3, '#');
}

proof fn lemma_rules_lack_hash(steps: Seq<Seq<char>>)
    ensures
        !rules_of(steps).1.contains('#'),
    decreases steps.len(),
{
    if steps.len() > 0 {
        lemma_rules_lack_hash(steps.drop_last());
        let s = safe_of(steps.last());
        let (seen, out) = rules_of(steps.drop_last());
        if !(s.len() == 0 || seen.contains(s)) {
            safe_markers_hold_only_selector_characters(steps.last());
            if s.contains('#') {
                let i = choose|i: int| 0 <= i < s.len() && s[i] == '#';
                assert(is_ident(s[i]) || s[i] == '-');
            }
            lemma_group_lacks_hash(s);
            lemma_joined_lacks(out, rule_group(s), '#');
        }
    }
}

/// No rule names a literal colour: every colour is a theme token, so when
/// the tokens handed in carry no `#`, neither does the whole style block,
/// whatever markers the steps carry.
pub proof fn no_rule_names_a_literal_colour(tokens: Seq<char>, steps: Seq<Seq<char>>)
    requires
        !tokens.contains('#'),
    ensures
        !style_of(tokens, steps).contains('#'),
{
    reveal_strlit("text{font-family:Inter,system-ui,sans-serif}.c4-box{fill:var(--_node-fill);stroke:var(--_node-stroke);stroke-width:1}.c4-box-ext{stroke-dasharray:5 3}.c4-icon{color:var(--_text)}.c4-accent{fill:var(--ags-accent,var(--_arrow))}.c4-tag{fill:var(--_text-sec)}.c4-tag-person{fill:var(--ags-accent,var(--_arrow))}.c4-label{fill:var(--_text)}.c4-techn{fill:var(--_text-muted)}.c4-descr{fill:var(--_text-sec)}.c4-edge{fill:none;stroke:var(--_line);stroke-width:1}.c4-arrow-head{fill:var(--_arrow)}.c4-boundary{fill:none;stroke:var(--_node-stroke);stroke-dasharray:4 4}.c4-boundary-label{fill:var(--_text-sec)}.c4-title{fill:var(--_text)}.c4-badge{fill:var(--ags-bg);stroke:var(--_arrow);stroke-width:1.2}.c4-badge-text{fill:var(--_text)}.c4-tip-hit{fill:transparent}.c4-tip{opacity:0;pointer-events:none}.c4-tip-box{fill:var(--_arrow)}.c4-tip-text{fill:var(--ags-bg)}.c4-step{cursor:default}");
    reveal_strlit("icon-outline");
    reveal_strlit(".");
    reveal_strlit("{stroke-linecap:round;stroke-linejoin:round}");
    assert(!STATIC_RULES@.contains('#'));
    assert(!OUTLINE_CLASS@.contains('#'));
    assert(!"."@.contains('#'));
    assert(!"{stroke-linecap:round;stroke-linejoin:round}"@.contains('#'));
    lemma_rules_lack_hash(steps);
    let a = tokens + STATIC_RULES@;
    lemma_joined_lacks(tokens, STATIC_RULES@, '#');
    lemma_joined_lacks(a, "."@, '#');
    lemma_joined_lacks(a + "."@, OUTLINE_CLASS@, '#');
    lemma_joined_lacks(
        a + "."@ + OUTLINE_CLASS@,
        "{stroke-linecap:round;stroke-linejoin:round}"@,
        '#',
    );
    lemma_joined_lacks(
        a + "."@ + OUTLINE_CLASS@ + "{stroke-linecap:round;stroke-linejoin:round}"@,
        rules_of(steps).1,
        '#',
    );
}

/// Whether `needle` appears in `hay` as one unbroken run.
pub open spec fn holds_text(hay: Seq<char>, needle: Seq<char>) -> bool {
    exists|i: int|
        0 <= i && i + needle.len() <= hay.len() && #[trigger] hay.subrange(i, i + needle.len())
            == needle
}

proof fn lemma_holds_inside(p: Seq<char>, a: Seq<char>, q: Seq<char>, n: Seq<char>)
    requires
        holds_text(a, n),
    ensures
        holds_text(p + a + q, n),
{
    let i = choose|i: int|
        0 <= i && i + n.len() <= a.len() && #[trigger] a.subrange(i, i + n.len()) == n;
    let j = p.len() + i;
    assert((p + a + q).subrange(j, j + n.len()) =~= a.subrange(i, i + n.len()));
}

proof fn lemma_holds_within(a: Seq<char>, m: Seq<char>, n: Seq<char>)
    requires
        holds_text(a, m),
        holds_text(m, n),
    ensures
        holds_text(a, n),
{
    let i = choose|i: int|
        0 <= i && i + m.len() <= a.len() && #[trigger] a.subrange(i, i + m.len()) == m;
    let j = choose|j: int|
        0 <= j && j + n.len() <= m.len() && #[trigger] m.subrange(j, j + n.len()) == n;
    assert(a.subrange(i + j, i + j + n.len()) =~= m.subrange(j, j + n.len()));
}

/// Every marker given rules so far has its whole group in the rules.
proof fn lemma_groups_held(steps: Seq<Seq<char>>)
    ensures
        forall|k: int|
            0 <= k < rules_of(steps).0.len() ==> holds_text(
                rules_of(steps).1,
                rule_group(#[trigger] rules_of(steps).0[k]),
            ),
    decreases steps.len(),
{
    if steps.len() > 0 {
        lemma_groups_held(steps.drop_last());
        let (seen, out) = rules_of(steps.drop_last());
        let s = safe_of(steps.last());
        if !(s.len() == 0 || seen.contains(s)) {
            let grown = seen.push(s);
            assert forall|k: int| 0 <= k < grown.len() implies holds_text(
                out + rule_group(s),
                rule_group(#[trigger] grown[k]),
            ) by {
                if k < seen.len() {
                    assert(grown[k] == seen[k]);
                    lemma_holds_inside(Seq::empty(), out, rule_group(s), rule_group(seen[k]));
                    assert(Seq::<char>::empty() + out + rule_group(s) =~= out + rule_group(s));
                } else {
                    let g = rule_group(s);
                    assert((out + g).subrange(out.len() as int, (out.len() + g.len()) as int) =~= g);
                }
            }
        }
    }
}

/// Steps whose markers have all been given rules, or carry none, add nothing.
proof fn lemma_nothing_new(steps: Seq<Seq<char>>, more: Seq<Seq<char>>)
    requires
        forall|j: int|
            0 <= j < more.len() ==> safe_of(#[trigger] more[j]).len() == 0 || rules_of(
                steps,
            ).0.contains(safe_of(more[j])),
    ensures
        rules_of(steps + more) == rules_of(steps),
    decreases more.len(),
{
    if more.len() > 0 {
        let fewer = more.drop_last();
        assert forall|j: int| 0 <= j < fewer.len() implies safe_of(#[trigger] fewer[j]).len() == 0
            || rules_of(steps).0.contains(safe_of(fewer[j])) by {
            assert(fewer[j] == more[j]);
        }
        lemma_nothing_new(steps, fewer);
        assert((steps + more).drop_last() =~= steps + fewer);
        assert((steps + more).last() == more[more.len() - 1]);
    }
}

/// A step named twice emits one group of rules: the block opens with the
/// tokens it was given; naming the whole run of steps a second time changes
/// nothing; every step with a usable marker has its whole group of rules,
/// starting with the selector `svg:has(.c4-step[data-step="…"]:hover)`, in
/// the block; and with no steps, nothing follows the fixed rules.
pub proof fn a_step_named_twice_emits_one_group_of_rules(tokens: Seq<char>, steps: Seq<Seq<char>>)
    ensures
        style_of(tokens, steps).take(tokens.len() as int) == tokens,
        style_of(tokens, steps + steps) == style_of(tokens, steps),
        forall|k: int|
            0 <= k < steps.len() && safe_of(#[trigger] steps[k]).len() > 0 ==> holds_text(
                style_of(tokens, steps),
                rule_group(safe_of(steps[k])),
            ) && holds_text(style_of(tokens, steps), hovered(safe_of(steps[k]))),
        style_of(tokens, Seq::empty()) == tokens + STATIC_RULES@ + "."@ + OUTLINE_CLASS@
            + "{stroke-linecap:round;stroke-linejoin:round}"@,
{
    let fixed = tokens + STATIC_RULES@ + "."@ + OUTLINE_CLASS@
        + "{stroke-linecap:round;stroke-linejoin:round}"@;
    assert(style_of(tokens, steps) == fixed + rules_of(steps).1);
    assert(style_of(tokens, steps).take(tokens.len() as int) =~= tokens);
    assert forall|j: int| 0 <= j < steps.len() implies safe_of(#[trigger] steps[j]).len() == 0
        || rules_of(steps).0.contains(safe_of(steps[j])) by {
        if safe_of(steps[j]).len() > 0 {
            lemma_seen_markers(steps, j);
        }
    }
    lemma_nothing_new(steps, steps);
    lemma_groups_held(steps);
    assert forall|k: int|
        0 <= k < steps.len() && safe_of(#[trigger] steps[k]).len() > 0 implies holds_text(
        style_of(tokens, steps),
        rule_group(safe_of(steps[k])),
    ) && holds_text(style_of(tokens, steps), hovered(safe_of(steps[k]))) by {
        let m = safe_of(steps[k]);
        lemma_seen_markers(steps, k);
        let (seen, out) = rules_of(steps);
        let w = choose|w: int| 0 <= w < seen.len() && seen[w] == m;
        assert(holds_text(out, rule_group(seen[w])));
        lemma_holds_inside(fixed, out, Seq::empty(), rule_group(m));
        assert(fixed + out + Seq::<char>::empty() =~= style_of(tokens, steps));
        let g = rule_group(m);
        let h = hovered(m);
        assert(h.len() <= g.len());
        assert(g.subrange(0, (0 + h.len()) as int) =~= h);
        assert(holds_text(g, h));
        lemma_holds_within(style_of(tokens, steps), g, h);
    }
    assert(rules_of(Seq::<Seq<char>>::empty()).1 =~= Seq::<char>::empty());
    assert(fixed + Seq::<char>::empty() =~= fixed);
}

/// The rules every block carries, after the tokens and before any step.
pub open spec fn fixed_rules() -> Seq<char> {
    STATIC_RULES@ + "."@ + OUTLINE_CLASS@ + "{stroke-linecap:round;stroke-linejoin:round}"@
}

proof fn lemma_fixed_rules_never_hover()
    ensures
        fixed_rules().len() > 0,
        fixed_rules()[0] == 't',
        forall|i: int|
            0 <= i < fixed_rules().len() - 1 ==> !(fixed_rules()[i] == ':' && #[trigger] fixed_rules()[i
                + 1] == 'h'),
{
    reveal_strlit("text{font-family:Inter,system-ui,sans-serif}.c4-box{fill:var(--_node-fill);stroke:var(--_node-stroke);stroke-width:1}.c4-box-ext{stroke-dasharray:5 3}.c4-icon{color:var(--_text)}.c4-accent{fill:var(--ags-accent,var(--_arrow))}.c4-tag{fill:var(--_text-sec)}.c4-tag-person{fill:var(--ags-accent,var(--_arrow))}.c4-label{fill:var(--_text)}.c4-techn{fill:var(--_text-muted)}.c4-descr{fill:var(--_text-sec)}.c4-edge{fill:none;stroke:var(--_line);stroke-width:1}.c4-arrow-head{fill:var(--_arrow)}.c4-boundary{fill:none;stroke:var(--_node-stroke);stroke-dasharray:4 4}.c4-boundary-label{fill:var(--_text-sec)}.c4-title{fill:var(--_text)}.c4-badge{fill:var(--ags-bg);stroke:var(--_arrow);stroke-width:1.2}.c4-badge-text{fill:var(--_text)}.c4-tip-hit{fill:transparent}.c4-tip{opacity:0;pointer-events:none}.c4-tip-box{fill:var(--_arrow)}.c4-tip-text{fill:var(--ags-bg)}.c4-step{cursor:default}");
    reveal_strlit("icon-outline");
    reveal_strlit(".");
    reveal_strlit("{stroke-linecap:round;stroke-linejoin:round}");
    let f = fixed_rules();
    assert forall|i: int| 0 <= i < f.len() - 1 implies !(f[i] == ':' && #[trigger] f[i + 1] == 'h') by {}
}

/// With no steps, no rule waits on a hover: when the tokens hold no
/// `:has(`, the whole block holds none either.
pub proof fn without_steps_no_rule_waits_on_a_hover(tokens: Seq<char>)
    requires
        !holds_text(tokens, ":has("@),
    ensures
        !holds_text(style_of(tokens, Seq::empty()), ":has("@),
{
    reveal_strlit(":has(");
    lemma_fixed_rules_never_hover();
    let f = fixed_rules();
    let all = style_of(tokens, Seq::empty());
    let p = ":has("@;
    assert(rules_of(Seq::<Seq<char>>::empty()).1 =~= Seq::<char>::empty());
    assert(all =~= tokens + f);
    if holds_text(all, p) {
        let i = choose|i: int| 0 <= i && i + p.len() <= all.len() && #[trigger] all.subrange(i, i + p.len()) == p;
        let t = tokens.len() as int;
        if i + 5 <= t {
            assert(tokens.subrange(i, i + 5) =~= all.subrange(i, i + 5));
            assert(holds_text(tokens, p));
        } else if i >= t {
            assert(all[i] == p[0] && all[i + 1] == p[1]);
            assert(all[i] == f[i - t] && all[i + 1] == f[i - t + 1]);
        } else {
            assert(all[t] == f[0]);
            assert(all.subrange(i, i + 5)[t - i] == all[t]);
        }
    }
}

} // verus!
