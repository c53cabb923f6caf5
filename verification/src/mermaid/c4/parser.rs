//! Reading C4 source into a diagram.
//!
//! The grammar is a sequence of `Name(arg, arg, …)` calls, with boundaries
//! opening a brace block that may nest.
use vstd::prelude::*;

use super::types::{
    opt_view, Boundary, BoundaryKind, BoundaryView, Diagram, DiagramView, Element, ElementKind,
    ElementView, LayoutConfig, RelDirection, Relationship, RelationshipView, Variant,
};
use crate::text::{
    all_digits, all_ident, alpha, blank, chars_of, decimal, decimal_reads_back, digit_run,
    drop_leading, drop_leading_either, ends_with, eq_ignore_case, find_char, find_pat, find_text,
    has_prefix, has_suffix, is_alpha, is_blank, is_digit, is_ws, last_position, leading_digits,
    lemma_blank_trim, lemma_digit_run_of, lemma_find_char_at, lemma_find_char_none,
    lemma_rfind_char, lemma_rfind_char_at, lemma_trim_keeps_out, lines, lower_all, lowercase, only_ident,
    parse_decimal, parse_usize, position, rfind_char, same, same_ignoring_case, slice,
    split_lines, split_once, starts_with, string_of, trim, trim_bounds, trim_end, trim_start,
    trimmed, trimmed_start, without_leading, ws,
};

verus! {

/// The arguments of a call, as plain values.
pub open spec fn args_view(args: Seq<String>) -> Seq<Seq<char>> {
    args.map_values(|a: String| a@)
}

/// The `i`-th argument, if there is one.
pub open spec fn arg_at(args: Seq<Seq<char>>, i: int) -> Option<Seq<char>> {
    if 0 <= i < args.len() {
        Some(args[i])
    } else {
        None
    }
}

/// Where a quoted argument list has got to.
pub struct Splitting {
    pub args: Seq<Seq<char>>,
    pub cur: Seq<char>,
    pub quote: Option<char>,
}

/// One character of an argument list: a comma inside quotes is content, and
/// the surrounding quotes are dropped.
pub open spec fn split_step(st: Splitting, ch: char) -> Splitting {
    match st.quote {
        Some(q) => if ch == q {
            Splitting { args: st.args, cur: st.cur, quote: None }
        } else {
            Splitting { args: st.args, cur: st.cur.push(ch), quote: st.quote }
        },
        None => if ch == '"' || ch == '\'' {
            Splitting { args: st.args, cur: st.cur, quote: Some(ch) }
        } else if ch == ',' {
            Splitting { args: st.args.push(trim(st.cur)), cur: Seq::empty(), quote: None }
        } else {
            Splitting { args: st.args, cur: st.cur.push(ch), quote: None }
        },
    }
}

pub open spec fn split_fold(s: Seq<char>) -> Splitting
    decreases s.len(),
{
    if s.len() == 0 {
        Splitting { args: Seq::empty(), cur: Seq::empty(), quote: None }
    } else {
        split_step(split_fold(s.drop_last()), s.last())
    }
}

/// The arguments of a comma-separated list, honouring quotes.
pub open spec fn split_args_of(inner: Seq<char>) -> Seq<Seq<char>> {
    let st = split_fold(inner);
    if !is_blank(st.cur) || st.args.len() > 0 {
        st.args.push(trim(st.cur))
    } else {
        st.args
    }
}

/// Split a comma-separated argument list, honouring quotes.
///
/// A comma inside quotes is content — labels routinely contain them — and the
/// surrounding quotes are dropped.
pub fn split_args(inner: &str) -> (args: Vec<String>)
    ensures
        args_view(args@) == split_args_of(inner@),
{
    let chars = chars_of(inner);
    let mut args: Vec<String> = Vec::new();
    let mut cur: Vec<char> = Vec::new();
    let mut quote: Option<char> = None;
    let mut i: usize = 0;
    assert(chars@.take(0) =~= Seq::<char>::empty());
    assert(args_view(args@) =~= Seq::<Seq<char>>::empty());
    while i < chars.len()
        invariant
            i <= chars.len(),
            chars@ == inner@,
            split_fold(chars@.take(i as int)) == (Splitting {
                args: args_view(args@),
                cur: cur@,
                quote,
            }),
        decreases chars.len() - i,
    {
        let ch = chars[i];
        assert(chars@.take(i + 1).drop_last() == chars@.take(i as int));
        assert(chars@.take(i + 1).last() == ch);
        match quote {
            Some(q) => {
                if ch == q {
                    quote = None;
                } else {
                    cur.push(ch);
                }
            },
            None => {
                if ch == '"' || ch == '\'' {
                    quote = Some(ch);
                } else if ch == ',' {
                    let piece = string_of(&trimmed(&cur));
                    let ghost before = args@;
                    args.push(piece);
                    assert(args_view(args@) =~= args_view(before).push(piece@));
                    cur = Vec::new();
                    assert(cur@ =~= Seq::<char>::empty());
                } else {
                    cur.push(ch);
                }
            },
        }
        i += 1;
    }
    assert(chars@.take(chars@.len() as int) == chars@);
    if !blank(&cur) || args.len() > 0 {
        let piece = string_of(&trimmed(&cur));
        let ghost before = args@;
        args.push(piece);
        assert(args_view(args@) =~= args_view(before).push(piece@));
    }
    args
}

/// A positional argument with empties and named `$key=value` ones dropped.
pub open spec fn clean_arg_of(value: Option<Seq<char>>) -> Option<Seq<char>> {
    match value {
        None => None,
        Some(raw) => {
            let v = trim(raw);
            if v.len() == 0 {
                None
            } else {
                let named = match split_once(v, '=') {
                    Some((key, _)) => {
                        let k = drop_leading(trim(key), '$');
                        k.len() > 0 && all_ident(k)
                    },
                    None => false,
                };
                if named {
                    None
                } else {
                    Some(v)
                }
            }
        },
    }
}

/// Normalise an optional argument, dropping empties and named `$key=value`
/// ones, which are styling metadata rather than positional values.
pub fn clean_arg(value: Option<&String>) -> (r: Option<String>)
    ensures
        opt_view(r) == clean_arg_of(match value {
            Some(s) => Some(s@),
            None => None,
        }),
{
    let raw = value?;
    let v = trimmed(&chars_of(raw.as_str()));
    if v.len() == 0 {
        return None;
    }
    let named = match position(&v, '=') {
        Some(k) => {
            assert(v@.take(k as int) == v@.subrange(0, k as int));
            let key = trimmed(&slice(&v, 0, k));
            let stripped = without_leading(&key, '$', '$');
            stripped.len() > 0 && only_ident(&stripped)
        },
        None => false,
    };
    if named {
        return None;
    }
    Some(string_of(&v))
}

/// Whether a line opens a diagram, and should be consumed as the header.
pub open spec fn is_header_of(line: Seq<char>) -> bool {
    let lower = lower_all(line);
    ||| starts_with(lower, "c4context"@)
    ||| starts_with(lower, "c4container"@)
    ||| starts_with(lower, "c4component"@)
    ||| starts_with(lower, "c4dynamic"@)
    ||| starts_with(lower, "c4deployment"@)
}

/// Whether a line opens a diagram, and should be consumed as the header.
pub fn is_header(line: &str) -> (r: bool)
    ensures
        r == is_header_of(line@),
{
    let lower = lowercase(&chars_of(line));
    has_prefix(&lower, &chars_of("c4context")) || has_prefix(&lower, &chars_of("c4container"))
        || has_prefix(&lower, &chars_of("c4component")) || has_prefix(
        &lower,
        &chars_of("c4dynamic"),
    ) || has_prefix(&lower, &chars_of("c4deployment"))
}

/// A positive integer written as `$key="n"` anywhere in a line.
pub open spec fn config_value_of(line: Seq<char>, key: Seq<char>) -> Option<nat> {
    let lower = lower_all(line);
    match find_pat(lower, "$"@ + lower_all(key)) {
        None => None,
        Some(at) => {
            let rest = line.skip(at + key.len() + 1);
            let value = drop_leading_either(
                trim_start(drop_leading(trim_start(rest), '=')),
                '"',
                '\'',
            );
            let digits = value.take(digit_run(value) as int);
            match parse_usize(digits) {
                Some(n) => if n > 0 {
                    Some(n)
                } else {
                    None
                },
                None => None,
            }
        },
    }
}

/// Read a positive integer from `$key="n"` anywhere in a line. A malformed or
/// zero value reads as nothing, so the current setting is left alone.
pub fn read_config_value(line: &str, key: &str) -> (r: Option<usize>)
    ensures
        match r {
            Some(n) => config_value_of(line@, key@) == Some(n as nat),
            None => config_value_of(line@, key@) is None,
        },
{
    let lc = chars_of(line);
    let lower = lowercase(&lc);
    let want = crate::text::concat(&chars_of("$"), &lowercase(&chars_of(key)));
    let at = find_text(&lower, &want)?;
    let klen = chars_of(key).len();
    proof {
        reveal_strlit("$");
    }
    assert(want@.len() == klen + 1);
    let rest = slice(&lc, at + klen + 1, lc.len());
    assert(rest@ == line@.skip(at + klen + 1));
    let after_eq = without_leading(&trimmed_start(&rest), '=', '=');
    let value = without_leading(&trimmed_start(&after_eq), '"', '\'');
    let digits = leading_digits(&value);
    let n = parse_decimal(&digits)?;
    if n > 0 {
        Some(n)
    } else {
        None
    }
}

/// `UpdateLayoutConfig` applied to a configuration.
pub open spec fn apply_config_of(line: Seq<char>, config: LayoutConfig) -> LayoutConfig {
    LayoutConfig {
        shape_in_row: match config_value_of(line, "c4ShapeInRow"@) {
            Some(n) => n as usize,
            None => config.shape_in_row,
        },
        boundary_in_row: match config_value_of(line, "c4BoundaryInRow"@) {
            Some(n) => n as usize,
            None => config.boundary_in_row,
        },
    }
}

/// Apply `UpdateLayoutConfig` to the running configuration.
pub fn apply_layout_config(line: &str, config: &mut LayoutConfig)
    ensures
        *final(config) == apply_config_of(line@, *old(config)),
{
    if let Some(n) = read_config_value(line, "c4ShapeInRow") {
        config.shape_in_row = n;
    }
    if let Some(n) = read_config_value(line, "c4BoundaryInRow") {
        config.boundary_in_row = n;
    }
}

/// The coarse kind a boundary call names.
pub open spec fn boundary_kind_of(name: Seq<char>) -> BoundaryKind {
    let lower = lower_all(name);
    if starts_with(lower, "enterprise"@) {
        BoundaryKind::Enterprise
    } else if starts_with(lower, "system"@) {
        BoundaryKind::System
    } else if starts_with(lower, "container"@) {
        BoundaryKind::Container
    } else {
        BoundaryKind::Deployment
    }
}

/// Map a boundary call name onto a coarse kind.
pub fn boundary_kind(name: &str) -> (k: BoundaryKind)
    ensures
        k == boundary_kind_of(name@),
{
    let lower = lowercase(&chars_of(name));
    if has_prefix(&lower, &chars_of("enterprise")) {
        BoundaryKind::Enterprise
    } else if has_prefix(&lower, &chars_of("system")) {
        BoundaryKind::System
    } else if has_prefix(&lower, &chars_of("container")) {
        BoundaryKind::Container
    } else {
        BoundaryKind::Deployment
    }
}

/// Whether a call opens a boundary block.
pub open spec fn is_boundary_of(name: Seq<char>) -> bool {
    let lower = lower_all(name);
    ||| ends_with(lower, "_boundary"@)
    ||| lower == "deployment_node"@
    ||| lower == "node"@
    ||| lower == "node_l"@
    ||| lower == "node_r"@
}

/// Whether a call opens a boundary block.
pub fn is_boundary(name: &str) -> (r: bool)
    ensures
        r == is_boundary_of(name@),
{
    let lower = lowercase(&chars_of(name));
    has_suffix(&lower, &chars_of("_boundary")) || same(&lower, &chars_of("deployment_node"))
        || same(&lower, &chars_of("node")) || same(&lower, &chars_of("node_l")) || same(
        &lower,
        &chars_of("node_r"),
    )
}

/// The coarse kind an element call names.
pub open spec fn element_kind_of(name: Seq<char>) -> Option<ElementKind> {
    let lower = lower_all(name);
    if starts_with(lower, "person"@) {
        Some(ElementKind::Person)
    } else if starts_with(lower, "system"@) {
        Some(ElementKind::System)
    } else if starts_with(lower, "container"@) {
        Some(ElementKind::Container)
    } else if starts_with(lower, "component"@) {
        Some(ElementKind::Component)
    } else {
        None
    }
}

/// The coarse kind an element call names.
pub fn element_kind(name: &str) -> (k: Option<ElementKind>)
    ensures
        k == element_kind_of(name@),
{
    let lower = lowercase(&chars_of(name));
    if has_prefix(&lower, &chars_of("person")) {
        Some(ElementKind::Person)
    } else if has_prefix(&lower, &chars_of("system")) {
        Some(ElementKind::System)
    } else if has_prefix(&lower, &chars_of("container")) {
        Some(ElementKind::Container)
    } else if has_prefix(&lower, &chars_of("component")) {
        Some(ElementKind::Component)
    } else {
        None
    }
}

/// The storage-shape variant a `*Db` or `*Queue` form carries.
pub open spec fn variant_of_name(name: Seq<char>) -> Option<Variant> {
    let lower = lower_all(name);
    let base = if ends_with(lower, "_ext"@) {
        lower.take(lower.len() - 4)
    } else {
        lower
    };
    if ends_with(base, "db"@) {
        Some(Variant::Db)
    } else if ends_with(base, "queue"@) {
        Some(Variant::Queue)
    } else {
        None
    }
}

/// The storage-shape variant a `*Db` or `*Queue` form carries.
pub fn variant_of(name: &str) -> (v: Option<Variant>)
    ensures
        v == variant_of_name(name@),
{
    proof {
        reveal_strlit("_ext");
    }
    let lower = lowercase(&chars_of(name));
    let base = if has_suffix(&lower, &chars_of("_ext")) {
        slice(&lower, 0, lower.len() - 4)
    } else {
        lower
    };
    if has_suffix(&base, &chars_of("db")) {
        Some(Variant::Db)
    } else if has_suffix(&base, &chars_of("queue")) {
        Some(Variant::Queue)
    } else {
        None
    }
}

/// The element a call builds, if the call names one.
pub open spec fn element_of(name: Seq<char>, args: Seq<Seq<char>>, boundary: Option<Seq<char>>) -> Option<
    ElementView,
> {
    match element_kind_of(name) {
        None => None,
        Some(kind) => if args.len() == 0 || trim(args[0]).len() == 0 {
            None
        } else {
            let alias = trim(args[0]);
            let label = match clean_arg_of(arg_at(args, 1)) {
                Some(l) => l,
                None => alias,
            };
            let layered = kind == ElementKind::Container || kind == ElementKind::Component;
            Some(
                ElementView {
                    alias,
                    kind,
                    variant: variant_of_name(name),
                    label,
                    techn: if layered {
                        clean_arg_of(arg_at(args, 2))
                    } else {
                        None
                    },
                    descr: if layered {
                        clean_arg_of(arg_at(args, 3))
                    } else {
                        clean_arg_of(arg_at(args, 2))
                    },
                    external: ends_with(lower_all(name), "_ext"@),
                    boundary,
                },
            )
        },
    }
}

fn arg(args: &[String], i: usize) -> (r: Option<&String>)
    ensures
        match r {
            Some(s) => arg_at(args_view(args@), i as int) == Some(s@),
            None => arg_at(args_view(args@), i as int) is None,
        },
{
    if i < args.len() {
        Some(&args[i])
    } else {
        None
    }
}

/// Build an element from a call, if the call names one. Containers and
/// components carry a technology string before the description.
pub fn parse_element(name: &str, args: &[String], boundary: Option<&String>) -> (r: Option<Element>)
    ensures
        match r {
            Some(e) => element_of(
                name@,
                args_view(args@),
                match boundary {
                    Some(b) => Some(b@),
                    None => None,
                },
            ) == Some(e@),
            None => element_of(
                name@,
                args_view(args@),
                match boundary {
                    Some(b) => Some(b@),
                    None => None,
                },
            ) is None,
        },
{
    let kind = element_kind(name)?;
    if args.len() == 0 {
        return None;
    }
    let alias = trimmed(&chars_of(args[0].as_str()));
    if alias.len() == 0 {
        return None;
    }
    let label = match clean_arg(arg(args, 1)) {
        Some(l) => l,
        None => string_of(&alias),
    };
    let layered = kind == ElementKind::Container || kind == ElementKind::Component;
    let (techn, descr) = if layered {
        (clean_arg(arg(args, 2)), clean_arg(arg(args, 3)))
    } else {
        (None, clean_arg(arg(args, 2)))
    };
    let lower = lowercase(&chars_of(name));
    Some(
        Element {
            alias: string_of(&alias),
            kind,
            variant: variant_of(name),
            label,
            techn,
            descr,
            external: has_suffix(&lower, &chars_of("_ext")),
            boundary: match boundary {
                Some(b) => Some(b.clone()),
                None => None,
            },
        },
    )
}

/// A direction hint from a `Rel_*` suffix.
pub open spec fn rel_direction_of(name: Seq<char>) -> Option<RelDirection> {
    let lower = lower_all(name);
    match rfind_char(lower, '_') {
        None => None,
        Some(k) => {
            let suffix = lower.skip(k + 1);
            if suffix == "u"@ || suffix == "up"@ {
                Some(RelDirection::Up)
            } else if suffix == "d"@ || suffix == "down"@ {
                Some(RelDirection::Down)
            } else if suffix == "l"@ || suffix == "left"@ {
                Some(RelDirection::Left)
            } else if suffix == "r"@ || suffix == "right"@ {
                Some(RelDirection::Right)
            } else {
                None
            }
        },
    }
}

/// A direction hint from a `Rel_*` suffix.
pub fn rel_direction(name: &str) -> (d: Option<RelDirection>)
    ensures
        d == rel_direction_of(name@),
{
    let lower = lowercase(&chars_of(name));
    let k = last_position(&lower, '_')?;
    assert(lower@.skip(k + 1) == lower@.subrange(k + 1, lower@.len() as int));
    let suffix = slice(&lower, k + 1, lower.len());
    if same(&suffix, &chars_of("u")) || same(&suffix, &chars_of("up")) {
        Some(RelDirection::Up)
    } else if same(&suffix, &chars_of("d")) || same(&suffix, &chars_of("down")) {
        Some(RelDirection::Down)
    } else if same(&suffix, &chars_of("l")) || same(&suffix, &chars_of("left")) {
        Some(RelDirection::Left)
    } else if same(&suffix, &chars_of("r")) || same(&suffix, &chars_of("right")) {
        Some(RelDirection::Right)
    } else {
        None
    }
}

/// The relationship a call builds, if both endpoints are named.
pub open spec fn relationship_of(name: Seq<char>, args: Seq<Seq<char>>) -> Option<RelationshipView> {
    let lower = lower_all(name);
    let base: int = if lower == "relindex"@ {
        1
    } else {
        0
    };
    if args.len() <= base + 1 {
        None
    } else {
        let from = trim(args[base]);
        let to = trim(args[base + 1]);
        if from.len() == 0 || to.len() == 0 {
            None
        } else {
            Some(
                RelationshipView {
                    from,
                    to,
                    label: match arg_at(args, base + 2) {
                        Some(l) => l,
                        None => Seq::empty(),
                    },
                    techn: clean_arg_of(arg_at(args, base + 3)),
                    direction: rel_direction_of(name),
                    bidirectional: starts_with(lower, "birel"@),
                },
            )
        }
    }
}

/// Build a relationship from a call, if both endpoints are named.
/// `RelIndex(index, from, to, …)` shifts every positional argument by one.
pub fn parse_relationship(name: &str, args: &[String]) -> (r: Option<Relationship>)
    ensures
        match r {
            Some(rel) => relationship_of(name@, args_view(args@)) == Some(rel@),
            None => relationship_of(name@, args_view(args@)) is None,
        },
{
    let lower = lowercase(&chars_of(name));
    let base: usize = if same(&lower, &chars_of("relindex")) {
        1
    } else {
        0
    };
    if args.len() <= base + 1 {
        return None;
    }
    let from = trimmed(&chars_of(args[base].as_str()));
    let to = trimmed(&chars_of(args[base + 1].as_str()));
    if from.len() == 0 || to.len() == 0 {
        return None;
    }
    let label = match arg(args, base + 2) {
        Some(l) => l.clone(),
        None => String::new(),
    };
    Some(
        Relationship {
            from: string_of(&from),
            to: string_of(&to),
            label,
            techn: clean_arg(arg(args, base + 3)),
            direction: rel_direction(name),
            bidirectional: has_prefix(&lower, &chars_of("birel")),
        },
    )
}

/// A `Name(args)` call, with whether the line opened a brace block.
pub struct Call {
    pub name: String,
    pub args: Vec<String>,
    pub open_brace: bool,
}

pub struct CallView {
    pub name: Seq<char>,
    pub args: Seq<Seq<char>>,
    pub open_brace: bool,
}

impl View for Call {
    type V = CallView;

    open spec fn view(&self) -> CallView {
        CallView { name: self.name@, args: args_view(self.args@), open_brace: self.open_brace }
    }
}

/// What a `Name(args…)` line, optionally followed by `{`, reads as.
pub open spec fn call_of(line: Seq<char>) -> Option<CallView> {
    match find_char(line, '(') {
        None => None,
        Some(open) => {
            let name = trim(line.take(open));
            if name.len() == 0 || !(is_alpha(name[0]) || name[0] == '_') || !all_ident(name) {
                None
            } else {
                match rfind_char(line, ')') {
                    None => None,
                    Some(close) => if close < open {
                        None
                    } else {
                        let tail = trim(line.skip(close + 1));
                        if tail.len() != 0 && tail != "{"@ {
                            None
                        } else {
                            Some(
                                CallView {
                                    name,
                                    args: split_args_of(line.subrange(open + 1, close)),
                                    open_brace: tail == "{"@,
                                },
                            )
                        }
                    },
                }
            }
        },
    }
}

/// Parse `Name(args…)` optionally followed by `{`.
pub fn parse_call(line: &str) -> (r: Option<Call>)
    ensures
        match r {
            Some(c) => call_of(line@) == Some(c@),
            None => call_of(line@) is None,
        },
{
    let lc = chars_of(line);
    let open = position(&lc, '(')?;
    assert(lc@.take(open as int) == lc@.subrange(0, open as int));
    let name = trimmed(&slice(&lc, 0, open));
    if name.len() == 0 || !(alpha(name[0]) || name[0] == '_') || !only_ident(&name) {
        return None;
    }
    let close = last_position(&lc, ')')?;
    if close < open {
        return None;
    }
    assert(lc@.skip(close + 1) == lc@.subrange(close + 1, lc@.len() as int));
    let tail = trimmed(&slice(&lc, close + 1, lc.len()));
    let brace = chars_of("{");
    if tail.len() != 0 && !same(&tail, &brace) {
        return None;
    }
    let inner = string_of(&slice(&lc, open + 1, close));
    Some(
        Call {
            name: string_of(&name),
            args: split_args(inner.as_str()),
            open_brace: same(&tail, &brace),
        },
    )
}

/// The remainder of a line introduced by `keyword ` in any case, when there
/// is one.
pub open spec fn strip_keyword_of(line: Seq<char>, keyword: Seq<char>) -> Option<Seq<char>> {
    if line.len() >= keyword.len() && eq_ignore_case(line.take(keyword.len() as int), keyword) {
        let rest = line.skip(keyword.len() as int);
        let trimmed = trim_start(rest);
        if trimmed.len() < rest.len() && trimmed.len() > 0 {
            Some(trimmed)
        } else {
            None
        }
    } else {
        None
    }
}

/// The remainder of a line introduced by `keyword `, case-insensitively.
pub fn strip_keyword<'a>(line: &'a str, keyword: &str) -> (r: Option<&'a str>)
    ensures
        match r {
            Some(t) => strip_keyword_of(line@, keyword@) == Some(t@),
            None => strip_keyword_of(line@, keyword@) is None,
        },
{
    let lc = chars_of(line);
    let kc = chars_of(keyword);
    if lc.len() < kc.len() {
        return None;
    }
    let head = slice(&lc, 0, kc.len());
    assert(head@ == lc@.take(kc@.len() as int));
    if !same_ignoring_case(&head, &kc) {
        return None;
    }
    let a = crate::text::skip_ws(&lc, kc.len());
    if a > kc.len() && a < lc.len() {
        assert(lc@.skip(a as int).len() > 0);
        Some(line.substring_char(a, lc.len()))
    } else {
        None
    }
}

/// What the reader carries from one line to the next: the diagram so far,
/// the boundaries currently open (innermost last), and a boundary whose `{`
/// is expected on the following line.
pub struct ReadState {
    pub diagram: DiagramView,
    pub stack: Seq<Seq<char>>,
    pub pending: Option<BoundaryView>,
}

/// The innermost open boundary, if any.
pub open spec fn innermost(stack: Seq<Seq<char>>) -> Option<Seq<char>> {
    if stack.len() > 0 {
        Some(stack.last())
    } else {
        None
    }
}

/// What one call does to the reader's state: a boundary opens (now or on the
/// next `{`), a relationship or an element is added, anything else is ignored.
pub open spec fn read_call(st: ReadState, c: CallView) -> ReadState {
    let d = st.diagram;
    let lower = lower_all(c.name);
    if is_boundary_of(c.name) {
        if c.args.len() == 0 || c.args[0].len() == 0 {
            st
        } else {
            let alias = c.args[0];
            let b = BoundaryView {
                alias,
                label: match clean_arg_of(arg_at(c.args, 1)) {
                    Some(l) => l,
                    None => alias,
                },
                kind: boundary_kind_of(c.name),
                parent: innermost(st.stack),
            };
            if c.open_brace {
                ReadState {
                    diagram: DiagramView { boundaries: d.boundaries.push(b), ..d },
                    stack: st.stack.push(alias),
                    pending: st.pending,
                }
            } else {
                ReadState { diagram: d, stack: st.stack, pending: Some(b) }
            }
        }
    } else if starts_with(lower, "rel"@) || starts_with(lower, "birel"@) {
        match relationship_of(c.name, c.args) {
            Some(r) => ReadState {
                diagram: DiagramView { relationships: d.relationships.push(r), ..d },
                stack: st.stack,
                pending: st.pending,
            },
            None => st,
        }
    } else {
        match element_of(c.name, c.args, innermost(st.stack)) {
            Some(e) => ReadState {
                diagram: DiagramView { elements: d.elements.push(e), ..d },
                stack: st.stack,
                pending: st.pending,
            },
            None => st,
        }
    }
}

/// What one source line does to the reader's state.
pub open spec fn read_line(st: ReadState, raw: Seq<char>) -> ReadState {
    let line = trim(raw);
    let lower = lower_all(line);
    let d = st.diagram;
    if line.len() == 0 || starts_with(line, "%%"@) || is_header_of(line) {
        st
    } else if strip_keyword_of(line, "title"@) is Some {
        ReadState {
            diagram: DiagramView { title: strip_keyword_of(line, "title"@), ..d },
            stack: st.stack,
            pending: st.pending,
        }
    } else if starts_with(lower, "updatelayoutconfig"@) {
        ReadState {
            diagram: DiagramView { config: apply_config_of(line, d.config), ..d },
            stack: st.stack,
            pending: st.pending,
        }
    } else if starts_with(lower, "update"@) {
        st
    } else if line == "{"@ {
        match st.pending {
            Some(b) => ReadState {
                diagram: DiagramView { boundaries: d.boundaries.push(b), ..d },
                stack: st.stack.push(b.alias),
                pending: None,
            },
            None => st,
        }
    } else if starts_with(line, "}"@) {
        ReadState {
            diagram: d,
            stack: if st.stack.len() > 0 {
                st.stack.drop_last()
            } else {
                st.stack
            },
            pending: st.pending,
        }
    } else {
        match call_of(line) {
            None => st,
            Some(c) => read_call(st, c),
        }
    }
}

/// The reader's state after a run of lines, from an empty diagram.
pub open spec fn read_lines(ls: Seq<Seq<char>>) -> ReadState
    decreases ls.len(),
{
    if ls.len() == 0 {
        ReadState {
            diagram: DiagramView {
                title: None,
                elements: Seq::empty(),
                relationships: Seq::empty(),
                boundaries: Seq::empty(),
                config: LayoutConfig { shape_in_row: 4, boundary_in_row: 2 },
            },
            stack: Seq::empty(),
            pending: None,
        }
    } else {
        read_line(read_lines(ls.drop_last()), ls.last())
    }
}

/// What `parse` reads from a source.
pub open spec fn parse_of(source: Seq<char>) -> DiagramView {
    read_lines(lines(source)).diagram
}

/// The reader's state as plain values.
pub open spec fn state_of(d: Diagram, stack: Vec<String>, pending: Option<Boundary>) -> ReadState {
    ReadState {
        diagram: d@,
        stack: args_view(stack@),
        pending: match pending {
            Some(b) => Some(b@),
            None => None,
        },
    }
}

fn innermost_of(stack: &Vec<String>) -> (r: Option<String>)
    ensures
        opt_view(r) == innermost(args_view(stack@)),
{
    if stack.len() > 0 {
        Some(stack[stack.len() - 1].clone())
    } else {
        None
    }
}

/// Apply one call to the reader's state.
fn take_call(diagram: &mut Diagram, stack: &mut Vec<String>, pending: &mut Option<Boundary>, c: Call)
    ensures
        state_of(*final(diagram), *final(stack), *final(pending)) == read_call(
            state_of(*old(diagram), *old(stack), *old(pending)),
            c@,
        ),
{
    let ghost st = state_of(*diagram, *stack, *pending);
    let lower = lowercase(&chars_of(c.name.as_str()));
    if is_boundary(c.name.as_str()) {
        if c.args.len() == 0 || c.args[0].as_str().is_empty() {
            proof {
                if c.args.len() > 0 {
                    assert(c@.args[0] == c.args[0]@);
                }
            }
            return;
        }
        let alias = c.args[0].clone();
        assert(alias@ == c@.args[0]);
        let label = match clean_arg(arg(&c.args, 1)) {
            Some(l) => l,
            None => alias.clone(),
        };
        let boundary = Boundary {
            alias: alias.clone(),
            label,
            kind: boundary_kind(c.name.as_str()),
            parent: innermost_of(stack),
        };
        if c.open_brace {
            let ghost before = stack@;
            stack.push(alias);
            assert(args_view(stack@) =~= args_view(before).push(c@.args[0]));
            diagram.boundaries.push(boundary);
            assert(diagram@.boundaries =~= st.diagram.boundaries.push(boundary@));
        } else {
            *pending = Some(boundary);
        }
    } else if has_prefix(&lower, &chars_of("rel")) || has_prefix(&lower, &chars_of("birel")) {
        if let Some(rel) = parse_relationship(c.name.as_str(), c.args.as_slice()) {
            diagram.relationships.push(rel);
            assert(diagram@.relationships =~= st.diagram.relationships.push(rel@));
        }
    } else {
        let parent = innermost_of(stack);
        let found = match &parent {
            Some(p) => parse_element(c.name.as_str(), c.args.as_slice(), Some(p)),
            None => parse_element(c.name.as_str(), c.args.as_slice(), None),
        };
        if let Some(e) = found {
            diagram.elements.push(e);
            assert(diagram@.elements =~= st.diagram.elements.push(e@));
        }
    }
}

/// Apply one source line to the reader's state.
fn take_line(
    diagram: &mut Diagram,
    stack: &mut Vec<String>,
    pending: &mut Option<Boundary>,
    raw: &[char],
)
    ensures
        state_of(*final(diagram), *final(stack), *final(pending)) == read_line(
            state_of(*old(diagram), *old(stack), *old(pending)),
            raw@,
        ),
{
    let ghost st = state_of(*diagram, *stack, *pending);
    let line_chars = trimmed(raw);
    let line = string_of(&line_chars);
    let lower = lowercase(&line_chars);
    if line_chars.len() == 0 || has_prefix(&line_chars, &chars_of("%%")) || is_header(
        line.as_str(),
    ) {
        return;
    }
    if let Some(rest) = strip_keyword(line.as_str(), "title") {
        diagram.title = Some(rest.to_owned());
        return;
    }
    if has_prefix(&lower, &chars_of("updatelayoutconfig")) {
        apply_layout_config(line.as_str(), &mut diagram.config);
        return;
    }
    if has_prefix(&lower, &chars_of("update")) {
        return;
    }
    if same(&line_chars, &chars_of("{")) {
        if let Some(boundary) = pending.take() {
            let ghost before = stack@;
            stack.push(boundary.alias.clone());
            assert(args_view(stack@) =~= args_view(before).push(boundary@.alias));
            diagram.boundaries.push(boundary);
            assert(diagram@.boundaries =~= st.diagram.boundaries.push(boundary@));
        }
        return;
    }
    if has_prefix(&line_chars, &chars_of("}")) {
        let ghost before = stack@;
        if stack.len() > 0 {
            stack.pop();
            assert(args_view(stack@) =~= args_view(before).drop_last());
        }
        return;
    }
    if let Some(c) = parse_call(line.as_str()) {
        take_call(diagram, stack, pending, c);
    }
}

/// Parse C4 source into a diagram.
///
/// A line that is not a call is ignored rather than fatal: sources in the wild
/// carry stray text, and a diagram is better than an error.
pub fn parse(source: &str) -> (d: Diagram)
    ensures
        d@ == parse_of(source@),
{
    let all = split_lines(&chars_of(source));
    let mut diagram = Diagram::default();
    let mut stack: Vec<String> = Vec::new();
    let mut pending: Option<Boundary> = None;
    let ghost ls = lines(source@);
    let mut i: usize = 0;
    assert(args_view(stack@) =~= Seq::<Seq<char>>::empty());
    assert(ls.take(0) =~= Seq::<Seq<char>>::empty());
    while i < all.len()
        invariant
            i <= all.len() == ls.len(),
            ls == lines(source@),
            forall|m: int| 0 <= m < all.len() ==> #[trigger] all[m]@ == ls[m],
            state_of(diagram, stack, pending) == read_lines(ls.take(i as int)),
        decreases all.len() - i,
    {
        assert(ls.take(i + 1).drop_last() == ls.take(i as int));
        assert(ls.take(i + 1).last() == all[i as int]@);
        take_line(&mut diagram, &mut stack, &mut pending, &all[i]);
        i += 1;
    }
    assert(ls.take(ls.len() as int) == ls);
    diagram
}

/// Some boundary among `bs` is called `alias`.
pub open spec fn names_boundary(bs: Seq<BoundaryView>, alias: Seq<char>) -> bool {
    exists|j: int| 0 <= j < bs.len() && #[trigger] bs[j].alias == alias
}

/// A boundary's parent is one declared before it, when it has one.
pub open spec fn parent_precedes(bs: Seq<BoundaryView>, i: int) -> bool {
    match bs[i].parent {
        None => true,
        Some(p) => exists|j: int| 0 <= j < i && #[trigger] bs[j].alias == p,
    }
}

/// Everything that names a boundary names one that was declared: a
/// boundary's parent precedes it, an element's boundary exists, and so does
/// every open boundary and the parent of the one waiting for its brace.
pub open spec fn well_nested(st: ReadState) -> bool {
    let bs = st.diagram.boundaries;
    &&& forall|i: int| 0 <= i < bs.len() ==> #[trigger] parent_precedes(bs, i)
    &&& forall|e: int|
        0 <= e < st.diagram.elements.len() ==> match (#[trigger] st.diagram.elements[e]).boundary {
            None => true,
            Some(b) => names_boundary(bs, b),
        }
    &&& forall|k: int| 0 <= k < st.stack.len() ==> names_boundary(bs, #[trigger] st.stack[k])
    &&& match st.pending {
        Some(b) => match b.parent {
            None => true,
            Some(p) => names_boundary(bs, p),
        },
        None => true,
    }
}

/// The layout hints are always positive: a zero never replaces a setting.
pub open spec fn positive_config(c: LayoutConfig) -> bool {
    c.shape_in_row > 0 && c.boundary_in_row > 0
}

proof fn lemma_push_boundary(st: ReadState, b: BoundaryView)
    requires
        well_nested(st),
        match b.parent {
            None => true,
            Some(p) => names_boundary(st.diagram.boundaries, p),
        },
    ensures
        ({
            let bs = st.diagram.boundaries.push(b);
            &&& forall|i: int| 0 <= i < bs.len() ==> #[trigger] parent_precedes(bs, i)
            &&& forall|e: int|
                0 <= e < st.diagram.elements.len() ==> match (
                #[trigger] st.diagram.elements[e]).boundary {
                    None => true,
                    Some(x) => names_boundary(bs, x),
                }
            &&& forall|k: int| 0 <= k < st.stack.len() ==> names_boundary(bs, #[trigger] st.stack[k])
            &&& names_boundary(bs, b.alias)
        }),
{
    let old = st.diagram.boundaries;
    let bs = old.push(b);
    assert forall|i: int| 0 <= i < bs.len() implies #[trigger] parent_precedes(bs, i) by {
        if i < old.len() {
            assert(parent_precedes(old, i));
            if let Some(p) = old[i].parent {
                let j = choose|j: int| 0 <= j < i && #[trigger] old[j].alias == p;
                assert(bs[j].alias == p);
            }
        } else if let Some(p) = b.parent {
            let j = choose|j: int| 0 <= j < old.len() && #[trigger] old[j].alias == p;
            assert(bs[j].alias == p);
        }
    }
    assert forall|e: int| 0 <= e < st.diagram.elements.len() implies match (
    #[trigger] st.diagram.elements[e]).boundary {
        None => true,
        Some(x) => names_boundary(bs, x),
    } by {
        if let Some(x) = st.diagram.elements[e].boundary {
            let j = choose|j: int| 0 <= j < old.len() && #[trigger] old[j].alias == x;
            assert(bs[j].alias == x);
        }
    }
    assert forall|k: int| 0 <= k < st.stack.len() implies names_boundary(bs, #[trigger] st.stack[k]) by {
        let j = choose|j: int| 0 <= j < old.len() && #[trigger] old[j].alias == st.stack[k];
        assert(bs[j].alias == st.stack[k]);
    }
    assert(bs[old.len() as int].alias == b.alias);
}

proof fn lemma_innermost_named(st: ReadState)
    requires
        well_nested(st),
    ensures
        match innermost(st.stack) {
            None => true,
            Some(p) => names_boundary(st.diagram.boundaries, p),
        },
{
    if st.stack.len() > 0 {
        assert(names_boundary(st.diagram.boundaries, st.stack[st.stack.len() - 1]));
    }
}

proof fn lemma_call_nested(st: ReadState, c: CallView)
    requires
        well_nested(st),
    ensures
        well_nested(read_call(st, c)),
        read_call(st, c).diagram.config == st.diagram.config,
{
    let d = st.diagram;
    lemma_innermost_named(st);
    if is_boundary_of(c.name) {
        if !(c.args.len() == 0 || c.args[0].len() == 0) {
            let alias = c.args[0];
            let b = BoundaryView {
                alias,
                label: match clean_arg_of(arg_at(c.args, 1)) {
                    Some(l) => l,
                    None => alias,
                },
                kind: boundary_kind_of(c.name),
                parent: innermost(st.stack),
            };
            if c.open_brace {
                lemma_push_boundary(st, b);
                let next = read_call(st, c);
                let bs = d.boundaries.push(b);
                assert forall|k: int| 0 <= k < next.stack.len() implies names_boundary(
                    bs,
                    #[trigger] next.stack[k],
                ) by {
                    if k < st.stack.len() {
                        assert(next.stack[k] == st.stack[k]);
                    }
                }
                if let Some(pb) = st.pending {
                    if let Some(p) = pb.parent {
                        let j = choose|j: int| 0 <= j < d.boundaries.len() && #[trigger] d.boundaries[j].alias == p;
                        assert(bs[j].alias == p);
                    }
                }
            }
        }
    } else {
        let lower = lower_all(c.name);
        if !(starts_with(lower, "rel"@) || starts_with(lower, "birel"@)) {
            if let Some(e) = element_of(c.name, c.args, innermost(st.stack)) {
                let next = read_call(st, c);
                assert forall|i: int| 0 <= i < next.diagram.elements.len() implies match (
                #[trigger] next.diagram.elements[i]).boundary {
                    None => true,
                    Some(x) => names_boundary(d.boundaries, x),
                } by {
                    if i < d.elements.len() {
                        assert(next.diagram.elements[i] == d.elements[i]);
                    }
                }
            }
        }
    }
}

proof fn lemma_line_nested(st: ReadState, raw: Seq<char>)
    requires
        well_nested(st),
        positive_config(st.diagram.config),
    ensures
        well_nested(read_line(st, raw)),
        positive_config(read_line(st, raw).diagram.config),
{
    let line = trim(raw);
    let lower = lower_all(line);
    let d = st.diagram;
    if line.len() == 0 || starts_with(line, "%%"@) || is_header_of(line) {
    } else if strip_keyword_of(line, "title"@) is Some {
    } else if starts_with(lower, "updatelayoutconfig"@) {
    } else if starts_with(lower, "update"@) {
    } else if line == "{"@ {
        if let Some(b) = st.pending {
            lemma_push_boundary(st, b);
            let next = read_line(st, raw);
            let bs = d.boundaries.push(b);
            assert forall|k: int| 0 <= k < next.stack.len() implies names_boundary(
                bs,
                #[trigger] next.stack[k],
            ) by {
                if k < st.stack.len() {
                    assert(next.stack[k] == st.stack[k]);
                }
            }
        }
    } else if starts_with(line, "}"@) {
        let next = read_line(st, raw);
        assert forall|k: int| 0 <= k < next.stack.len() implies names_boundary(
            d.boundaries,
            #[trigger] next.stack[k],
        ) by {
            assert(next.stack[k] == st.stack[k]);
        }
    } else {
        if let Some(c) = call_of(line) {
            lemma_call_nested(st, c);
        }
    }
}

proof fn lemma_lines_nested(ls: Seq<Seq<char>>)
    ensures
        well_nested(read_lines(ls)),
        positive_config(read_lines(ls).diagram.config),
    decreases ls.len(),
{
    if ls.len() > 0 {
        lemma_lines_nested(ls.drop_last());
        lemma_line_nested(read_lines(ls.drop_last()), ls.last());
    }
}

/// Every element and boundary is known by a non-empty alias, and every
/// relationship names both of its ends; so is the boundary waiting for its
/// brace.
pub open spec fn all_named(st: ReadState) -> bool {
    let d = st.diagram;
    &&& forall|e: int| 0 <= e < d.elements.len() ==> (#[trigger] d.elements[e]).alias.len() > 0
    &&& forall|i: int| 0 <= i < d.boundaries.len() ==> (#[trigger] d.boundaries[i]).alias.len() > 0
    &&& forall|r: int|
        0 <= r < d.relationships.len() ==> (#[trigger] d.relationships[r]).from.len() > 0
            && d.relationships[r].to.len() > 0
    &&& match st.pending {
        Some(b) => b.alias.len() > 0,
        None => true,
    }
}

proof fn lemma_call_named(st: ReadState, c: CallView)
    requires
        all_named(st),
    ensures
        all_named(read_call(st, c)),
{
    let d = st.diagram;
    let next = read_call(st, c);
    let nd = next.diagram;
    assert forall|e: int| 0 <= e < nd.elements.len() implies (#[trigger] nd.elements[e]).alias.len()
        > 0 by {
        if e < d.elements.len() {
            assert(nd.elements[e] == d.elements[e]);
        }
    }
    assert forall|i: int| 0 <= i < nd.boundaries.len() implies (#[trigger] nd.boundaries[i]).alias.len()
        > 0 by {
        if i < d.boundaries.len() {
            assert(nd.boundaries[i] == d.boundaries[i]);
        }
    }
    assert forall|r: int| 0 <= r < nd.relationships.len() implies (
    #[trigger] nd.relationships[r]).from.len() > 0 && nd.relationships[r].to.len() > 0 by {
        if r < d.relationships.len() {
            assert(nd.relationships[r] == d.relationships[r]);
        }
    }
}

proof fn lemma_line_named(st: ReadState, raw: Seq<char>)
    requires
        all_named(st),
    ensures
        all_named(read_line(st, raw)),
{
    let line = trim(raw);
    let lower = lower_all(line);
    let d = st.diagram;
    if line.len() == 0 || starts_with(line, "%%"@) || is_header_of(line) {
    } else if strip_keyword_of(line, "title"@) is Some {
    } else if starts_with(lower, "updatelayoutconfig"@) {
    } else if starts_with(lower, "update"@) {
    } else if line == "{"@ {
        if let Some(b) = st.pending {
            let nd = read_line(st, raw).diagram;
            assert forall|i: int| 0 <= i < nd.boundaries.len() implies (
            #[trigger] nd.boundaries[i]).alias.len() > 0 by {
                if i < d.boundaries.len() {
                    assert(nd.boundaries[i] == d.boundaries[i]);
                }
            }
        }
    } else if starts_with(line, "}"@) {
    } else {
        if let Some(c) = call_of(line) {
            lemma_call_named(st, c);
        }
    }
}

proof fn lemma_lines_named(ls: Seq<Seq<char>>)
    ensures
        all_named(read_lines(ls)),
    decreases ls.len(),
{
    if ls.len() > 0 {
        lemma_lines_named(ls.drop_last());
        lemma_line_named(read_lines(ls.drop_last()), ls.last());
    }
}

/// Nothing read goes without a name: every element and boundary alias is
/// non-empty, and every relationship names both of its ends.
pub proof fn everything_read_has_a_name(source: Seq<char>)
    ensures
        forall|e: int|
            0 <= e < parse_of(source).elements.len() ==> (
            #[trigger] parse_of(source).elements[e]).alias.len() > 0,
        forall|i: int|
            0 <= i < parse_of(source).boundaries.len() ==> (
            #[trigger] parse_of(source).boundaries[i]).alias.len() > 0,
        forall|r: int|
            0 <= r < parse_of(source).relationships.len() ==> (
            #[trigger] parse_of(source).relationships[r]).from.len() > 0 && parse_of(
                source,
            ).relationships[r].to.len() > 0,
{
    lemma_lines_named(lines(source));
}

/// Boundaries nest and claim their members: in any diagram read, a
/// boundary's parent is a boundary declared before it and an element's
/// boundary is a declared one, so no boundary refers to one that does not
/// exist. And the layout hints stay positive: a bad value never collapses
/// the diagram to zero columns.
pub proof fn boundaries_nest_within_declared_ones(source: Seq<char>)
    ensures
        forall|i: int|
            0 <= i < parse_of(source).boundaries.len() ==> #[trigger] parent_precedes(
                parse_of(source).boundaries,
                i,
            ),
        forall|e: int|
            0 <= e < parse_of(source).elements.len() ==> match (
            #[trigger] parse_of(source).elements[e]).boundary {
                None => true,
                Some(b) => names_boundary(parse_of(source).boundaries, b),
            },
        positive_config(parse_of(source).config),
{
    lemma_lines_nested(lines(source));
}

/// An element call builds an element exactly when it names a kind and its
/// first argument, trimmed, is a non-empty alias. The element then has that
/// alias and kind, and its label is the second argument, or the alias when
/// that is missing. Containers and components read a technology from the
/// third argument and their description from the fourth; people and systems
/// have no technology and read their description from the third.
pub proof fn element_arguments_fill_their_places_by_kind(
    name: Seq<char>,
    args: Seq<Seq<char>>,
    boundary: Option<Seq<char>>,
)
    ensures
        element_of(name, args, boundary) is None <==> (element_kind_of(name) is None || args.len()
            == 0 || trim(args[0]).len() == 0),
        element_of(name, args, boundary) matches Some(e) ==> {
            &&& e.alias == trim(args[0])
            &&& element_kind_of(name) == Some(e.kind)
            &&& e.boundary == boundary
            &&& e.label == match clean_arg_of(arg_at(args, 1)) {
                Some(l) => l,
                None => trim(args[0]),
            }
            &&& (e.kind == ElementKind::Container ==> e.techn == clean_arg_of(arg_at(args, 2))
                && e.descr == clean_arg_of(arg_at(args, 3)))
            &&& (e.kind == ElementKind::Component ==> e.techn == clean_arg_of(arg_at(args, 2))
                && e.descr == clean_arg_of(arg_at(args, 3)))
            &&& (e.kind == ElementKind::Person ==> e.techn is None && e.descr == clean_arg_of(
                arg_at(args, 2),
            ))
            &&& (e.kind == ElementKind::System ==> e.techn is None && e.descr == clean_arg_of(
                arg_at(args, 2),
            ))
        },
{
}

/// A relationship call reads its source from the first argument, its target
/// from the second, its label from the third and its technology from the
/// fourth, and is read only when both ends are named. `RelIndex` takes an
/// index first and shifts every other argument by one: it reads as a plain
/// `Rel` of the arguments after the index.
pub proof fn relationship_arguments_fill_their_places(name: Seq<char>, args: Seq<Seq<char>>)
    ensures
        lower_all(name) != "relindex"@ ==> (relationship_of(name, args) is None <==> (args.len()
            < 2 || trim(args[0]).len() == 0 || trim(args[1]).len() == 0)),
        lower_all(name) != "relindex"@ ==> (relationship_of(name, args) matches Some(r) ==> {
            &&& r.from == trim(args[0])
            &&& r.to == trim(args[1])
            &&& r.label == (if args.len() > 2 {
                args[2]
            } else {
                Seq::empty()
            })
            &&& r.techn == clean_arg_of(arg_at(args, 3))
        }),
        lower_all(name) == "relindex"@ && args.len() > 0 ==> relationship_of(name, args)
            == relationship_of("Rel"@, args.drop_first()),
{
    reveal_strlit("relindex");
    reveal_strlit("Rel");
    reveal_strlit("rel");
    reveal_strlit("birel");
    if lower_all(name) == "relindex"@ && args.len() > 0 {
        let short = "Rel"@;
        assert(lower_all(short) =~= "rel"@);
        assert("rel"@ != "relindex"@) by {
            assert("rel"@.len() != "relindex"@.len());
        }
        lemma_rfind_char(lower_all(name), '_');
        lemma_rfind_char(lower_all(short), '_');
        assert(rfind_char(lower_all(name), '_') is None) by {
            if let Some(k) = rfind_char(lower_all(name), '_') {
                assert("relindex"@[k] == '_');
            }
        }
        assert(rfind_char(lower_all(short), '_') is None) by {
            if let Some(k) = rfind_char(lower_all(short), '_') {
                assert("rel"@[k] == '_');
            }
        }
        assert(!starts_with(lower_all(name), "birel"@)) by {
            assert(lower_all(name).take(5)[0] != "birel"@[0]);
        }
        assert(!starts_with(lower_all(short), "birel"@));
        let rest = args.drop_first();
        assert forall|i: int| 0 <= i < rest.len() implies rest[i] == args[i + 1] by {}
        assert(arg_at(args, 3) == arg_at(rest, 2));
        assert(arg_at(args, 4) == arg_at(rest, 3));
    }
}

/// A `_` and a suffix after the name say which way a relationship is drawn:
/// `U` or `Up` upwards, `D` or `Down` downwards, `L` or `Left` and `R` or
/// `Right` sideways, in any case. Any other suffix, and a name without a
/// `_`, says nothing.
pub proof fn a_suffix_names_the_way_a_relationship_is_drawn(
    base: Seq<char>,
    suffix: Seq<char>,
    plain: Seq<char>,
)
    requires
        forall|i: int| 0 <= i < suffix.len() ==> #[trigger] suffix[i] != '_',
        forall|i: int| 0 <= i < plain.len() ==> #[trigger] plain[i] != '_',
    ensures
        ({
            let w = lower_all(suffix);
            let d = rel_direction_of(base + seq!['_'] + suffix);
            &&& (w == "u"@ || w == "up"@) ==> d == Some(RelDirection::Up)
            &&& (w == "d"@ || w == "down"@) ==> d == Some(RelDirection::Down)
            &&& (w == "l"@ || w == "left"@) ==> d == Some(RelDirection::Left)
            &&& (w == "r"@ || w == "right"@) ==> d == Some(RelDirection::Right)
            &&& (w != "u"@ && w != "up"@ && w != "d"@ && w != "down"@ && w != "l"@ && w
                != "left"@ && w != "r"@ && w != "right"@) ==> d is None
        }),
        rel_direction_of(plain) is None,
{
    reveal_strlit("u");
    reveal_strlit("up");
    reveal_strlit("d");
    reveal_strlit("down");
    reveal_strlit("l");
    reveal_strlit("left");
    reveal_strlit("r");
    reveal_strlit("right");
    let name = base + seq!['_'] + suffix;
    let lower = lower_all(name);
    let w = lower_all(suffix);
    assert(lower =~= lower_all(base) + seq!['_'] + w);
    assert forall|j: int| base.len() < j < lower.len() implies lower[j] != '_' by {
        assert(lower[j] == w[j - base.len() - 1]);
        assert(suffix[j - base.len() - 1] != '_');
    }
    lemma_rfind_char_at(lower, '_', base.len() as int);
    assert(lower.skip(base.len() + 1 as int) =~= w);
    assert(rfind_char(lower, '_') == Some(base.len() as int));
    lemma_rfind_char(lower_all(plain), '_');
    if let Some(k) = rfind_char(lower_all(plain), '_') {
        assert(plain[k] != '_');
    }
}

/// Lines that draw nothing leave the reading as it was: blank lines,
/// `%%` comments, and the styling directives (`Update…`, but for
/// `UpdateLayoutConfig`), which are consumed rather than read as elements.
pub proof fn lines_that_draw_nothing_change_nothing(st: ReadState, raw: Seq<char>)
    ensures
        is_blank(raw) ==> read_line(st, raw) == st,
        starts_with(trim(raw), "%%"@) ==> read_line(st, raw) == st,
        starts_with(lower_all(trim(raw)), "update"@) && !starts_with(
            lower_all(trim(raw)),
            "updatelayoutconfig"@,
        ) ==> read_line(st, raw) == st,
{
    lemma_blank_trim(raw);
    reveal_strlit("update");
    reveal_strlit("%%");
    reveal_strlit("title");
    reveal_strlit("c4context");
    reveal_strlit("c4container");
    reveal_strlit("c4component");
    reveal_strlit("c4dynamic");
    reveal_strlit("c4deployment");
    reveal_strlit("{");
    reveal_strlit("}");
    let line = trim(raw);
    let lower = lower_all(line);
    if starts_with(lower, "update"@) {
        assert(lower.take(6)[0] == 'u');
        assert(lower[0] == 'u');
        assert(line[0] == 'u' || line[0] == 'U');
        assert(!is_header_of(line)) by {
            assert(lower[0] != 'c');
            if starts_with(lower, "c4context"@) {
                assert(lower.take(9)[0] == 'c');
            }
            if starts_with(lower, "c4container"@) {
                assert(lower.take(11)[0] == 'c');
            }
            if starts_with(lower, "c4component"@) {
                assert(lower.take(11)[0] == 'c');
            }
            if starts_with(lower, "c4dynamic"@) {
                assert(lower.take(9)[0] == 'c');
            }
            if starts_with(lower, "c4deployment"@) {
                assert(lower.take(12)[0] == 'c');
            }
        }
        if line.len() >= 5 && eq_ignore_case(line.take(5), "title"@) {
            assert(lower_all(line.take(5))[0] == lower_all("title"@)[0]);
        }
        assert(strip_keyword_of(line, "title"@) is None);
        if starts_with(line, "%%"@) {
            assert(line.take(2)[0] == '%');
        }
        assert(line != "{"@);
        if starts_with(line, "}"@) {
            assert(line.take(1)[0] == '}');
        }
    }
}

proof fn lemma_trim_end_keeps(s: Seq<char>, i: int)
    requires
        0 <= i < s.len(),
        !is_ws(s[i]),
    ensures
        i < trim_end(s).len() <= s.len(),
        trim_end(s) == s.take(trim_end(s).len() as int),
    decreases s.len(),
{
    if is_ws(s.last()) {
        lemma_trim_end_keeps(s.drop_last(), i);
        assert(s.drop_last().take(trim_end(s).len() as int) =~= s.take(trim_end(s).len() as int));
    } else {
        assert(s.take(s.len() as int) =~= s);
    }
}

/// What a positional argument holds: a `$key=value` or `key=value` argument
/// is styling metadata and holds nothing, nor does a blank one; any other
/// argument without an `=` holds its text, trimmed.
pub proof fn named_arguments_hold_no_value(
    key: Seq<char>,
    value: Seq<char>,
    marked: bool,
    plain: Seq<char>,
)
    requires
        key.len() > 0,
        all_ident(key),
    ensures
        clean_arg_of(
            Some(
                (if marked {
                    seq!['$']
                } else {
                    Seq::empty()
                }) + key + seq!['='] + value,
            ),
        ) is None,
        is_blank(plain) ==> clean_arg_of(Some(plain)) is None,
        !is_blank(plain) && (forall|i: int| 0 <= i < plain.len() ==> #[trigger] plain[i] != '=')
            ==> clean_arg_of(Some(plain)) == Some(trim(plain)),
{
    lemma_blank_trim(plain);
    let lead: Seq<char> = if marked {
        seq!['$']
    } else {
        Seq::empty()
    };
    let head = lead + key;
    let raw = head + seq!['='] + value;
    let h = head.len() as int;
    assert(raw[h] == '=');
    assert(raw[0] == head[0]);
    assert(!is_ws(raw[0]));
    assert(trim_start(raw) == raw);
    lemma_trim_end_keeps(raw, h);
    let v = trim(raw);
    assert forall|j: int| 0 <= j < h implies v[j] != '=' by {
        assert(v[j] == raw[j]);
        assert(raw[j] == head[j]);
        if marked && j > 0 {
            assert(head[j] == key[j - 1]);
        } else if !marked {
            assert(head[j] == key[j]);
        }
    }
    assert(v[h] == raw[h]);
    lemma_find_char_at(v, '=', h);
    assert(v.take(h) =~= head);
    assert(head[head.len() - 1] == key.last());
    assert(trim_start(head) == head);
    assert(trim_end(head) == head);
    assert(trim(head) == head);
    if marked {
        assert(head.drop_first() =~= key);
        assert(drop_leading(key, '$') == key);
    } else {
        assert(head =~= key);
    }
    if !is_blank(plain) && (forall|i: int| 0 <= i < plain.len() ==> #[trigger] plain[i] != '=') {
        let t = trim(plain);
        lemma_trim_keeps_out(plain, '=');
        lemma_find_char_none(t, '=');
    }
}

proof fn lemma_fold_plain(before: Seq<char>, run: Seq<char>)
    requires
        split_fold(before).quote is None,
        forall|i: int|
            0 <= i < run.len() ==> #[trigger] run[i] != ',' && run[i] != '"' && run[i] != '\'',
    ensures
        split_fold(before + run) == (Splitting {
            args: split_fold(before).args,
            cur: split_fold(before).cur + run,
            quote: None,
        }),
    decreases run.len(),
{
    if run.len() == 0 {
        assert(before + run =~= before);
        assert(split_fold(before).cur + run =~= split_fold(before).cur);
    } else {
        let shorter = run.drop_last();
        lemma_fold_plain(before, shorter);
        assert((before + run).drop_last() =~= before + shorter);
        assert((before + run).last() == run.last());
        assert(split_fold(before).cur + shorter.push(run.last()) =~= split_fold(before).cur + run);
        assert(shorter.push(run.last()) =~= run);
        assert((split_fold(before).cur + shorter).push(run.last()) =~= split_fold(before).cur
            + run);
    }
}

proof fn lemma_fold_quoted(before: Seq<char>, run: Seq<char>, q: char)
    requires
        split_fold(before).quote == Some(q),
        forall|i: int| 0 <= i < run.len() ==> #[trigger] run[i] != q,
    ensures
        split_fold(before + run) == (Splitting {
            args: split_fold(before).args,
            cur: split_fold(before).cur + run,
            quote: Some(q),
        }),
    decreases run.len(),
{
    if run.len() == 0 {
        assert(before + run =~= before);
        assert(split_fold(before).cur + run =~= split_fold(before).cur);
    } else {
        let shorter = run.drop_last();
        lemma_fold_quoted(before, shorter, q);
        assert((before + run).drop_last() =~= before + shorter);
        assert((before + run).last() == run.last());
        assert(shorter.push(run.last()) =~= run);
        assert((split_fold(before).cur + shorter).push(run.last()) =~= split_fold(before).cur
            + run);
    }
}

/// A comma inside quotes is content: a plain argument, a comma, and a
/// quoted one that holds commas of its own read as two arguments, each
/// trimmed, with the quotes dropped.
pub proof fn a_comma_inside_quotes_is_content(first: Seq<char>, quoted: Seq<char>)
    requires
        forall|i: int|
            0 <= i < first.len() ==> #[trigger] first[i] != ',' && first[i] != '"' && first[i]
                != '\'',
        forall|i: int| 0 <= i < quoted.len() ==> #[trigger] quoted[i] != '"',
    ensures
        split_args_of(first + seq![',', ' ', '"'] + quoted + seq!['"']) == seq![
            trim(first),
            trim(quoted),
        ],
{
    let empty = Seq::<char>::empty();
    assert(split_fold(empty) == (Splitting { args: Seq::empty(), cur: Seq::empty(), quote: None }));
    lemma_fold_plain(empty, first);
    assert(empty + first =~= first);
    let a = first + seq![','];
    assert(a.drop_last() =~= first);
    assert(a.last() == ',');
    assert(split_fold(a) == (Splitting { args: seq![trim(first)], cur: Seq::empty(), quote: None }))
        by {
        assert(Seq::<Seq<char>>::empty().push(trim(first)) =~= seq![trim(first)]);
        assert(Seq::<char>::empty() + first =~= first);
    }
    let b = a + seq![' '];
    assert(b.drop_last() =~= a);
    assert(b.last() == ' ');
    assert(Seq::<char>::empty().push(' ') =~= seq![' ']);
    assert(split_fold(b) == (Splitting { args: seq![trim(first)], cur: seq![' '], quote: None }));
    let c = b + seq!['"'];
    assert(c.last() == '"');
    assert(c.drop_last() =~= b);
    assert(split_fold(c) == (Splitting {
        args: seq![trim(first)],
        cur: seq![' '],
        quote: Some('"'),
    }));
    lemma_fold_quoted(c, quoted, '"');
    let d = c + quoted;
    let e = d + seq!['"'];
    assert(e.drop_last() =~= d);
    assert(e =~= first + seq![',', ' ', '"'] + quoted + seq!['"']);
    assert(split_fold(e) == (Splitting {
        args: seq![trim(first)],
        cur: seq![' '] + quoted,
        quote: None,
    }));
    assert((seq![' '] + quoted).drop_first() =~= quoted);
    assert(trim_start(seq![' '] + quoted) == trim_start(quoted));
    assert(seq![trim(first)].push(trim(quoted)) =~= seq![trim(first), trim(quoted)]);
}

/// A boundary's brace may stand on the line after it: reading a call and
/// then a line holding only `{` reads just as the call with the brace on its
/// own line does, when no other boundary is waiting for its brace. (For a
/// call that opens no boundary, the brace changes nothing either way.)
pub proof fn a_brace_on_the_next_line_opens_the_block_too(st: ReadState, c: CallView)
    requires
        st.pending is None,
    ensures
        read_line(read_call(st, CallView { open_brace: false, ..c }), "{"@) == read_call(
            st,
            CallView { open_brace: true, ..c },
        ),
{
    reveal_strlit("{");
    reveal_strlit("%%");
    reveal_strlit("title");
    reveal_strlit("c4context");
    reveal_strlit("c4container");
    reveal_strlit("c4component");
    reveal_strlit("c4dynamic");
    reveal_strlit("c4deployment");
    reveal_strlit("updatelayoutconfig");
    reveal_strlit("update");
    let line = "{"@;
    assert(trim_start(line) == line);
    assert(trim_end(line) == line);
    let lower = lower_all(line);
    assert(lower =~= seq!['{']);
    assert(!starts_with(line, "%%"@));
    assert(!is_header_of(line));
    assert(strip_keyword_of(line, "title"@) is None);
    assert(!starts_with(lower, "updatelayoutconfig"@));
    assert(!starts_with(lower, "update"@));
}

proof fn lemma_find_marked(before: Seq<char>, rest: Seq<char>, p: Seq<char>)
    requires
        p.len() > 0,
        forall|i: int| 0 <= i < before.len() ==> #[trigger] before[i] != p[0],
        starts_with(rest, p),
    ensures
        find_pat(before + rest, p) == Some(before.len() as int),
    decreases before.len(),
{
    let s = before + rest;
    if before.len() == 0 {
        assert(s =~= rest);
    } else {
        assert(s[0] == before[0]);
        if starts_with(s, p) {
            assert(s.take(p.len() as int)[0] == p[0]);
        }
        assert(s.drop_first() =~= before.drop_first() + rest);
        assert forall|i: int| 0 <= i < before.len() - 1 implies #[trigger] before.drop_first()[i]
            != p[0] by {
            assert(before.drop_first()[i] == before[i + 1]);
        }
        lemma_find_marked(before.drop_first(), rest, p);
    }
}

/// A layout setting written `$key="N"` on a line reads as `N`, wherever it
/// stands after text without a `$`, and whatever follows it; a zero is no
/// setting, so the current one stays.
pub proof fn a_layout_setting_reads_the_number_it_names(
    before: Seq<char>,
    key: Seq<char>,
    n: nat,
    after: Seq<char>,
)
    requires
        n <= usize::MAX,
        forall|i: int| 0 <= i < before.len() ==> #[trigger] before[i] != '$',
    ensures
        config_value_of(
            before + seq!['$'] + key + seq!['=', '"'] + decimal(n) + seq!['"'] + after,
            key,
        ) == if n > 0 {
            Some(n)
        } else {
            None
        },
{
    reveal_strlit("$");
    decimal_reads_back(n);
    let digits = decimal(n);
    let tail = seq!['=', '"'] + digits + seq!['"'] + after;
    let line = before + seq!['$'] + key + tail;
    assert(line =~= before + seq!['$'] + key + seq!['=', '"'] + digits + seq!['"'] + after);
    let lower = lower_all(line);
    let p = "$"@ + lower_all(key);
    assert("$"@ =~= seq!['$']);
    let marked = seq!['$'] + key + tail;
    assert(line =~= before + marked);
    assert(lower =~= lower_all(before) + lower_all(marked));
    assert(lower_all(marked) =~= seq!['$'] + lower_all(key) + lower_all(tail));
    assert(lower_all(marked).take(p.len() as int) =~= p);
    assert forall|i: int| 0 <= i < lower_all(before).len() implies #[trigger] lower_all(before)[i]
        != p[0] by {
        assert(before[i] != '$');
    }
    lemma_find_marked(lower_all(before), lower_all(marked), p);
    let at = before.len() as int;
    assert(line.skip(at + key.len() + 1) =~= tail);
    assert(trim_start(tail) == tail);
    let quoted = seq!['"'] + digits + seq!['"'] + after;
    assert(tail.drop_first() =~= quoted);
    assert(drop_leading(quoted, '=') == quoted);
    assert(drop_leading(tail, '=') == quoted);
    assert(trim_start(quoted) == quoted);
    let value = digits + (seq!['"'] + after);
    assert(quoted.drop_first() =~= value);
    assert(is_digit(digits[0]));
    assert(value[0] == digits[0]);
    assert(drop_leading_either(value, '"', '\'') == value);
    assert(drop_leading_either(quoted, '"', '\'') == value);
    lemma_digit_run_of(digits, seq!['"'] + after);
    assert(value.take(digits.len() as int) =~= digits);
}

} // verus!
