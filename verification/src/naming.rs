//! Names under which tools are exported: `<server>.<tool>`, or
//! `<server>.<connector>.<tool>` for the tools of a connector.

use crate::text::{
    chars_of, decimal, decimal_text, joined, law_joined_lists, lemma_decimal_digits,
    lemma_decimal_injective, lemma_decimal_length, lemma_lowered_raised, lower, lowered,
    lowered_text, matches_at, optional_str, raised, raised_text, same_text,
};
use vstd::prelude::*;
use vstd::string::*;

verus! {

/// An ASCII letter or digit.
pub open spec fn alphanumeric(character: char) -> bool {
    ||| 'a' <= character <= 'z'
    ||| 'A' <= character <= 'Z'
    ||| '0' <= character <= '9'
}

/// Letters and digits in lower case, with each run of other characters made one `_`.
spec fn collapsed(value: Seq<char>) -> Seq<char>
    decreases value.len(),
{
    if value.len() == 0 {
        Seq::empty()
    } else {
        let front = collapsed(value.drop_last());
        if alphanumeric(value.last()) {
            front.push(lowered(value.last()))
        } else if front.len() > 0 && front.last() == '_' {
            front
        } else {
            front.push('_')
        }
    }
}

/// The text without the `_` characters that it starts with.
spec fn trimmed_start(text: Seq<char>) -> Seq<char>
    decreases text.len(),
{
    if text.len() > 0 && text[0] == '_' {
        trimmed_start(text.drop_first())
    } else {
        text
    }
}

/// The text without the `_` characters that it ends with.
spec fn trimmed_end(text: Seq<char>) -> Seq<char>
    decreases text.len(),
{
    if text.len() > 0 && text.last() == '_' {
        trimmed_end(text.drop_last())
    } else {
        text
    }
}

/// The runs of letters and digits in a text, in lower case.
pub open spec fn runs(value: Seq<char>) -> Seq<Seq<char>>
    decreases value.len(),
{
    if value.len() == 0 {
        Seq::empty()
    } else {
        let front = runs(value.drop_last());
        let character = value.last();
        if !alphanumeric(character) {
            front
        } else if value.len() > 1 && alphanumeric(value[value.len() - 2]) {
            front.update(front.len() - 1, front.last().push(lowered(character)))
        } else {
            front.push(seq![lowered(character)])
        }
    }
}

/// One component of an exported name: the runs of letters and digits, in lower case, with
/// a `_` between each two of them; `unnamed` where there are none.
pub open spec fn sanitized(value: Seq<char>) -> Seq<char> {
    if runs(value).len() == 0 {
        "unnamed"@
    } else {
        joined(runs(value), "_"@)
    }
}

/// Makes one component of an exported name.
pub fn sanitize_export_component(value: &str) -> (component: String)
    ensures
        component@ == sanitized(value@),
{
    let chars: Vec<char> = chars_of(value);
    let mut result: Vec<char> = Vec::new();
    let mut previous_was_separator: bool = false;
    let mut i: usize = 0;
    while i < chars.len()
        invariant
            i <= chars.len(),
            chars@ == value@,
            result@ == collapsed(value@.take(i as int)),
            previous_was_separator == (result@.len() > 0 && result@.last() == '_'),
        decreases chars.len() - i,
    {
        let character: char = chars[i];
        proof {
            let upto = value@.take(i + 1);
            assert(upto.drop_last() =~= value@.take(i as int));
            assert(upto.last() == character);
        }
        if is_alphanumeric(character) {
            result.push(lower(character));
            assert(result@.last() != '_') by {
                lemma_lowered_alphanumeric(character);
            }
            previous_was_separator = false;
        } else if !previous_was_separator {
            result.push('_');
            previous_was_separator = true;
        }
        i += 1;
    }
    assert(value@.take(value@.len() as int) =~= value@);
    let mut start: usize = 0;
    assert(result@.skip(0) =~= result@);
    while start < result.len() && result[start] == '_'
        invariant
            start <= result.len(),
            trimmed_start(result@) == trimmed_start(result@.skip(start as int)),
        decreases result.len() - start,
    {
        assert(result@.skip(start as int).drop_first() =~= result@.skip(start + 1));
        start += 1;
    }
    let mut end: usize = result.len();
    assert(result@.skip(start as int) =~= result@.subrange(start as int, end as int));
    while end > start && result[end - 1] == '_'
        invariant
            start <= end <= result.len(),
            trimmed_end(trimmed_start(result@)) == trimmed_end(
                result@.subrange(start as int, end as int),
            ),
        decreases end,
    {
        assert(result@.subrange(start as int, end as int).drop_last() =~= result@.subrange(
            start as int,
            end - 1,
        ));
        end -= 1;
    }
    proof {
        lemma_sanitized(value@);
    }
    if start == end {
        "unnamed".to_owned()
    } else {
        let mut component: String = String::new();
        let mut at: usize = start;
        while at < end
            invariant
                start <= at <= end <= result.len(),
                component@ == result@.subrange(start as int, at as int),
            decreases end - at,
        {
            component.push(result[at]);
            assert(component@ =~= result@.subrange(start as int, at + 1));
            at += 1;
        }
        component
    }
}

/// A letter or digit made lower case is a letter in lower case or a digit.
proof fn lemma_lowered_alphanumeric(character: char)
    requires
        alphanumeric(character),
    ensures
        'a' <= lowered(character) <= 'z' || '0' <= lowered(character) <= '9',
{
    if 'A' <= character <= 'Z' {
        assert(lowered(character) as u32 == character as u32 + 32);
    }
}

/// Letters in lower case and digits, one or more.
spec fn word(text: Seq<char>) -> bool {
    &&& text.len() > 0
    &&& forall|i: int|
        0 <= i < text.len() ==> 'a' <= #[trigger] text[i] <= 'z' || '0' <= text[i] <= '9'
}

proof fn lemma_runs_words(value: Seq<char>)
    ensures
        forall|i: int| 0 <= i < runs(value).len() ==> word(#[trigger] runs(value)[i]),
        value.len() > 0 && alphanumeric(value.last()) ==> runs(value).len() > 0,
    decreases value.len(),
{
    if value.len() > 0 {
        let front = value.drop_last();
        lemma_runs_words(front);
        if alphanumeric(value.last()) {
            lemma_lowered_alphanumeric(value.last());
            if value.len() > 1 && alphanumeric(value[value.len() - 2]) {
                assert(front.last() == value[value.len() - 2]);
                assert(word(runs(front)[runs(front).len() - 1]));
                assert(word(runs(front).last().push(lowered(value.last()))));
            } else {
                assert(word(seq![lowered(value.last())]));
            }
        }
    }
}

/// Joined texts start as the first of them and end as the last.
proof fn lemma_joined_ends(parts: Seq<Seq<char>>, separator: Seq<char>)
    requires
        parts.len() > 0,
        forall|i: int| 0 <= i < parts.len() ==> (#[trigger] parts[i]).len() > 0,
    ensures
        joined(parts, separator).len() > 0,
        joined(parts, separator)[0] == parts[0][0],
        joined(parts, separator).last() == parts.last().last(),
    decreases parts.len(),
{
    if parts.len() > 1 {
        let front = parts.drop_last();
        assert forall|i: int| 0 <= i < front.len() implies (#[trigger] front[i]).len() > 0 by {
            assert(front[i] == parts[i]);
        }
        lemma_joined_ends(front, separator);
        assert(parts[parts.len() - 1].len() > 0);
    }
}

/// Making the last of the joined texts longer makes the whole longer.
proof fn lemma_joined_grown(parts: Seq<Seq<char>>, separator: Seq<char>, character: char)
    requires
        parts.len() > 0,
    ensures
        joined(parts.update(parts.len() - 1, parts.last().push(character)), separator) == joined(
            parts,
            separator,
        ).push(character),
{
    let grown = parts.update(parts.len() - 1, parts.last().push(character));
    assert(grown.drop_last() =~= parts.drop_last());
    assert(joined(grown, separator) =~= joined(parts, separator).push(character));
}

/// A `_`, or nothing.
spec fn mark(there: bool) -> Seq<char> {
    if there {
        seq!['_']
    } else {
        Seq::empty()
    }
}

/// What is collapsed is the joined runs, with a `_` in front or behind where the text
/// starts or ends with something else.
proof fn lemma_collapsed_runs(value: Seq<char>)
    ensures
        collapsed(value) == mark(value.len() > 0 && !alphanumeric(value[0])) + joined(
            runs(value),
            "_"@,
        ) + mark(value.len() > 0 && runs(value).len() > 0 && !alphanumeric(value.last())),
        value.len() > 0 && runs(value).len() == 0 ==> !alphanumeric(value[0]) && !alphanumeric(
            value.last(),
        ),
    decreases value.len(),
{
    reveal_strlit("_");
    let shown = mark(value.len() > 0 && !alphanumeric(value[0])) + joined(runs(value), "_"@) + mark(
        value.len() > 0 && runs(value).len() > 0 && !alphanumeric(value.last()),
    );
    if value.len() == 0 {
        assert(collapsed(value) =~= shown);
    } else {
        let front = value.drop_last();
        let character = value.last();
        let parts = runs(front);
        lemma_collapsed_runs(front);
        lemma_runs_words(front);
        lemma_runs_words(value);
        if parts.len() > 0 {
            assert forall|i: int| 0 <= i < parts.len() implies (#[trigger] parts[i]).len() > 0 by {
                assert(word(parts[i]));
            }
            lemma_joined_ends(parts, "_"@);
            assert(word(parts[parts.len() - 1]));
        }
        if front.len() > 0 {
            assert(front[0] == value[0]);
            assert(front.last() == value[value.len() - 2]);
        }
        if alphanumeric(character) {
            if front.len() > 0 && alphanumeric(front.last()) {
                lemma_joined_grown(parts, "_"@, lowered(character));
            } else {
                assert(runs(value).drop_last() =~= parts);
                assert(runs(value).last() == seq![lowered(character)]);
            }
        }
        assert(collapsed(value) =~= shown);
    }
}

/// Collapsing a text and trimming it gives the component.
proof fn lemma_sanitized(value: Seq<char>)
    ensures
        sanitized(value) == {
            let result = trimmed_end(trimmed_start(collapsed(value)));
            if result.len() == 0 {
                "unnamed"@
            } else {
                result
            }
        },
{
    let parts = runs(value);
    let core = joined(parts, "_"@);
    let front = mark(value.len() > 0 && !alphanumeric(value[0]));
    let back = mark(value.len() > 0 && parts.len() > 0 && !alphanumeric(value.last()));
    lemma_collapsed_runs(value);
    if parts.len() == 0 {
        assert(collapsed(value) =~= front);
        assert(front.len() == 1 ==> front.drop_first() =~= Seq::empty());
        reveal_with_fuel(trimmed_start, 2);
        assert(trimmed_start(front).len() == 0);
    } else {
        lemma_runs_words(value);
        assert forall|i: int| 0 <= i < parts.len() implies (#[trigger] parts[i]).len() > 0 by {
            assert(word(parts[i]));
        }
        lemma_joined_ends(parts, "_"@);
        assert(word(parts[0]) && word(parts[parts.len() - 1]));
        reveal_with_fuel(trimmed_start, 2);
        reveal_with_fuel(trimmed_end, 2);
        let text = core + back;
        assert(collapsed(value) =~= front + text);
        assert(front.len() == 1 ==> (front + text).drop_first() =~= text);
        assert(front.len() == 0 ==> front + text =~= text);
        assert(trimmed_start(collapsed(value)) == text);
        assert(back.len() == 1 ==> text.drop_last() =~= core);
        assert(back.len() == 0 ==> text =~= core);
        assert(trimmed_end(text) == core);
    }
}

/// Whether a character is an ASCII letter or digit.
pub(crate) fn is_alphanumeric(character: char) -> (answer: bool)
    ensures
        answer == alphanumeric(character),
{
    ('a' <= character && character <= 'z') || ('A' <= character && character <= 'Z') || ('0'
        <= character && character <= '9')
}

/// `text` is `prefix` with something behind it.
pub open spec fn extends(text: Seq<char>, prefix: Seq<char>) -> bool {
    prefix.len() < text.len() && text.take(prefix.len() as int) == prefix
}

/// The tool's name without the connector's name and a `_`, or else a `-`, in front of
/// it; the whole name where that would leave nothing or it does not start so.
pub open spec fn stripped(tool: Seq<char>, prefix: Seq<char>) -> Seq<char> {
    if extends(tool, prefix.push('_')) {
        tool.skip(prefix.len() as int + 1)
    } else if extends(tool, prefix.push('-')) {
        tool.skip(prefix.len() as int + 1)
    } else {
        tool
    }
}

/// Takes the connector's name off the front of a tool's name.
pub fn strip_export_prefix(tool: &str, prefix: &str) -> (rest: String)
    ensures
        rest@ == stripped(tool@, prefix@),
{
    let chars: Vec<char> = chars_of(tool);
    let wanted: Vec<char> = chars_of(prefix);
    let matched: bool = wanted.len() < chars.len() && chars.len() - wanted.len() > 1
        && matches_at(&chars, &wanted, 0);
    let cut: bool = matched && (chars[wanted.len()] == '_' || chars[wanted.len()] == '-');
    proof {
        let n = wanted@.len() as int;
        if n + 1 < chars@.len() {
            assert(chars@.take(n + 1) =~= chars@.take(n).push(chars@[n]));
            assert(chars@.take(n + 1).drop_last() =~= chars@.take(n));
            assert(wanted@.push('_').drop_last() =~= wanted@);
            assert(wanted@.push('-').drop_last() =~= wanted@);
            assert(wanted@.push('_').last() == '_');
            assert(wanted@.push('-').last() == '-');
        }
        assert(cut == (extends(tool@, prefix@.push('_')) || extends(tool@, prefix@.push('-'))));
    }
    if cut {
        tool.substring_char(wanted.len() + 1, chars.len()).to_owned()
    } else {
        tool.to_owned()
    }
}

/// The name of a tool before names that occur twice are told apart.
pub open spec fn base_name(
    server: Seq<char>,
    connector: Option<Seq<char>>,
    tool: Seq<char>,
) -> Seq<char> {
    match connector {
        Some(connector) => sanitized(server).push('.') + sanitized(connector).push('.') + stripped(
            sanitized(tool),
            sanitized(connector),
        ),
        None => sanitized(server).push('.') + sanitized(tool),
    }
}

/// Makes the name of a tool, before names that occur twice are told apart.
pub fn exported_tool_base_name(
    server_name: &str,
    connector_name: Option<&str>,
    tool_name: &str,
) -> (name: String)
    ensures
        name@ == base_name(server_name@, optional_str(connector_name), tool_name@),
{
    let mut name: String = sanitize_export_component(server_name);
    name.push('.');
    let tool: String = sanitize_export_component(tool_name);
    match connector_name {
        Some(connector_name) => {
            let connector: String = sanitize_export_component(connector_name);
            let rest: String = strip_export_prefix(tool.as_str(), connector.as_str());
            name.append(connector.as_str());
            name.push('.');
            name.append(rest.as_str());
            assert(name@ =~= base_name(server_name@, optional_str(Some(connector_name)), tool_name@));
        }
        None => {
            name.append(tool.as_str());
        }
    }
    name
}

/// How often each base name has been given out.
pub struct UsedNames {
    names: Vec<(String, usize)>,
}

/// The number that stands with the first entry of that name, zero where there is none.
spec fn uses_in(names: Seq<(String, usize)>, name: Seq<char>) -> nat
    decreases names.len(),
{
    if names.len() == 0 {
        0
    } else if names[0].0@ == name {
        names[0].1 as nat
    } else {
        uses_in(names.drop_first(), name)
    }
}

impl UsedNames {
    /// How often a base name has been given out.
    pub closed spec fn uses(&self, name: Seq<char>) -> nat {
        uses_in(self.names@, name)
    }

    /// No name given out yet.
    pub fn new() -> (used: Self)
        ensures
            forall|name: Seq<char>| #[trigger] used.uses(name) == 0,
    {
        UsedNames { names: Vec::new() }
    }

    /// Counts one more use of a name, and says how many there are now.
    fn count(&mut self, name: &str) -> (uses: usize)
        requires
            old(self).uses(name@) < usize::MAX,
        ensures
            uses == old(self).uses(name@) + 1,
            final(self).uses(name@) == uses,
            forall|other: Seq<char>|
                other != name@ ==> #[trigger] final(self).uses(other) == old(self).uses(other),
    {
        let ghost before = self.names@;
        let mut i: usize = 0;
        assert(before.skip(0) =~= before);
        while i < self.names.len()
            invariant
                old(self).names@ == before,
                self.names@ == before,
                i <= before.len(),
                uses_in(before, name@) < usize::MAX,
                uses_in(before, name@) == uses_in(before.skip(i as int), name@),
                forall|j: int| 0 <= j < i ==> (#[trigger] before[j]).0@ != name@,
            decreases before.len() - i,
        {
            assert(before.skip(i as int).drop_first() =~= before.skip(i + 1));
            if same_text(self.names[i].0.as_str(), name) {
                let uses: usize = self.names[i].1 + 1;
                let kept: String = self.names[i].0.clone();
                self.names.set(i, (kept, uses));
                proof {
                    lemma_uses_updated(before, i as int, kept, uses);
                }
                return uses;
            }
            i += 1;
        }
        assert(uses_in(before.skip(before.len() as int), name@) == 0);
        let added: String = name.to_owned();
        self.names.push((added, 1));
        proof {
            lemma_uses_pushed(before, added);
        }
        1
    }
}

proof fn lemma_uses_updated(names: Seq<(String, usize)>, at: int, name: String, uses: usize)
    requires
        0 <= at < names.len(),
        names[at].0@ == name@,
        forall|j: int| 0 <= j < at ==> (#[trigger] names[j]).0@ != name@,
    ensures
        uses_in(names.update(at, (name, uses)), name@) == uses,
        forall|other: Seq<char>|
            other != name@ ==> #[trigger] uses_in(names.update(at, (name, uses)), other) == uses_in(
                names,
                other,
            ),
    decreases names.len(),
{
    let updated = names.update(at, (name, uses));
    if at > 0 {
        let rest = names.drop_first();
        assert(rest[at - 1] == names[at]);
        assert forall|j: int| 0 <= j < at - 1 implies (#[trigger] rest[j]).0@ != name@ by {
            assert(rest[j] == names[j + 1]);
        }
        lemma_uses_updated(rest, at - 1, name, uses);
        assert(updated.drop_first() =~= rest.update(at - 1, (name, uses)));
        assert forall|other: Seq<char>| other != name@ implies #[trigger] uses_in(updated, other)
            == uses_in(names, other) by {
            assert(uses_in(rest.update(at - 1, (name, uses)), other) == uses_in(rest, other));
        }
    } else {
        assert(updated.drop_first() =~= names.drop_first());
    }
}

proof fn lemma_uses_pushed(names: Seq<(String, usize)>, name: String)
    requires
        uses_in(names, name@) == 0,
        forall|j: int| 0 <= j < names.len() ==> (#[trigger] names[j]).0@ != name@,
    ensures
        uses_in(names.push((name, 1)), name@) == 1,
        forall|other: Seq<char>|
            other != name@ ==> #[trigger] uses_in(names.push((name, 1)), other) == uses_in(
                names,
                other,
            ),
    decreases names.len(),
{
    let pushed = names.push((name, 1));
    if names.len() > 0 {
        let rest = names.drop_first();
        assert forall|j: int| 0 <= j < rest.len() implies (#[trigger] rest[j]).0@ != name@ by {
            assert(rest[j] == names[j + 1]);
        }
        lemma_uses_pushed(rest, name);
        assert(pushed.drop_first() =~= rest.push((name, 1)));
        assert(pushed[0] == names[0]);
        assert forall|other: Seq<char>| other != name@ implies #[trigger] uses_in(pushed, other)
            == uses_in(names, other) by {
            assert(uses_in(rest.push((name, 1)), other) == uses_in(rest, other));
        }
    } else {
        assert(pushed.drop_first() =~= names);
    }
}

/// The name of the `number`th tool of a base name: the base name itself for the first,
/// the number behind it for the others.
pub open spec fn numbered(base: Seq<char>, number: nat) -> Seq<char> {
    if number == 1 {
        base
    } else {
        base.push('.') + decimal(number)
    }
}

/// One more tool of a base name gets the next number, and that is all that changes.
pub open spec fn gives_name(
    before: UsedNames,
    base: Seq<char>,
    after: UsedNames,
    name: Seq<char>,
) -> bool {
    &&& name == numbered(base, before.uses(base) + 1)
    &&& after.uses(base) == before.uses(base) + 1
    &&& forall|other: Seq<char>|
        other != base ==> #[trigger] after.uses(other) == before.uses(other)
}

/// Makes the name for one more tool of a base name.
pub fn unique_exported_tool_name(base_name: &str, used_names: &mut UsedNames) -> (name: String)
    requires
        old(used_names).uses(base_name@) < usize::MAX,
    ensures
        gives_name(*old(used_names), base_name@, *final(used_names), name@),
{
    let uses: usize = used_names.count(base_name);
    let mut name: String = base_name.to_owned();
    if uses != 1 {
        name.push('.');
        name.append(decimal_text(uses).as_str());
    }
    name
}

/// How often a text occurs in a list.
pub open spec fn occurrences(list: Seq<Seq<char>>, text: Seq<char>) -> nat
    decreases list.len(),
{
    if list.len() == 0 {
        0
    } else {
        occurrences(list.drop_last(), text) + if list.last() == text {
            1nat
        } else {
            0nat
        }
    }
}

/// The exported names of tools with these base names, in order.
pub open spec fn exported_names(bases: Seq<Seq<char>>) -> Seq<Seq<char>> {
    Seq::new(bases.len(), |i: int| numbered(bases[i], occurrences(bases.take(i + 1), bases[i])))
}

/// Some base name is another one with a number behind it that is given out.
pub open spec fn clashing(bases: Seq<Seq<char>>) -> bool {
    exists|i: int, number: nat|
        0 <= i < bases.len() && 2 <= number <= occurrences(bases, bases[i]) && bases.contains(
            #[trigger] numbered(bases[i], number),
        )
}

/// A text occurs in a list at most as often as the list is long.
pub proof fn lemma_occurrences_bounded(list: Seq<Seq<char>>, text: Seq<char>)
    ensures
        occurrences(list, text) <= list.len(),
    decreases list.len(),
{
    if list.len() > 0 {
        lemma_occurrences_bounded(list.drop_last(), text);
    }
}

proof fn lemma_occurrences_monotone(list: Seq<Seq<char>>, low: int, high: int, text: Seq<char>)
    requires
        0 <= low <= high <= list.len(),
    ensures
        occurrences(list.take(low), text) <= occurrences(list.take(high), text),
    decreases high - low,
{
    if low < high {
        lemma_occurrences_monotone(list, low, high - 1, text);
        assert(list.take(high).drop_last() =~= list.take(high - 1));
    }
}

/// At least one text of the list that is equal stands at `at`, and not before.
proof fn lemma_occurrences_at(list: Seq<Seq<char>>, at: int)
    requires
        0 <= at < list.len(),
    ensures
        occurrences(list.take(at + 1), list[at]) == occurrences(list.take(at), list[at]) + 1,
{
    assert(list.take(at + 1).drop_last() =~= list.take(at));
}

/// A numbered name is read back: base name and number.
pub proof fn lemma_numbered_injective(
    left: Seq<char>,
    left_number: nat,
    right: Seq<char>,
    right_number: nat,
)
    requires
        left_number >= 2,
        right_number >= 2,
        numbered(left, left_number) == numbered(right, right_number),
    ensures
        left == right,
        left_number == right_number,
{
    let name = numbered(left, left_number);
    let a = left.len() as int;
    let b = right.len() as int;
    lemma_decimal_digits(left_number);
    lemma_decimal_digits(right_number);
    assert(name == left.push('.') + decimal(left_number));
    assert(name == right.push('.') + decimal(right_number));
    assert(name[a] == left.push('.')[a] && name[b] == right.push('.')[b]);
    if a < b {
        assert(name[b] == decimal(left_number)[b - a - 1]);
    } else if b < a {
        assert(name[a] == decimal(right_number)[a - b - 1]);
    }
    assert(name.take(a) =~= left);
    assert(name.take(b) =~= right);
    assert(name.skip(a + 1) =~= decimal(left_number));
    assert(name.skip(b + 1) =~= decimal(right_number));
    lemma_decimal_injective(left_number, right_number);
}

/// No two tools are exported under one name, unless a base name is another one with a
/// number behind it that is given out.
pub proof fn law_exported_names_distinct(bases: Seq<Seq<char>>)
    requires
        !clashing(bases),
    ensures
        exported_names(bases).no_duplicates(),
{
    let names = exported_names(bases);
    assert forall|i: int, j: int| 0 <= i < j < names.len() implies names[i] != names[j] by {
        if names[i] == names[j] {
            lemma_occurrences_at(bases, i);
            lemma_occurrences_at(bases, j);
            lemma_occurrences_monotone(bases, i + 1, bases.len() as int, bases[i]);
            lemma_occurrences_monotone(bases, j + 1, bases.len() as int, bases[j]);
            assert(bases.take(bases.len() as int) =~= bases);
            let first = occurrences(bases.take(i + 1), bases[i]);
            let second = occurrences(bases.take(j + 1), bases[j]);
            if bases[i] == bases[j] {
                lemma_occurrences_monotone(bases, i + 1, j, bases[i]);
                lemma_decimal_length(first);
                lemma_decimal_length(second);
                if first >= 2 {
                    lemma_numbered_injective(bases[i], first, bases[j], second);
                } else {
                    assert(numbered(bases[j], second).len() > bases[j].len());
                }
            } else if first >= 2 && second >= 2 {
                lemma_numbered_injective(bases[i], first, bases[j], second);
            } else if first >= 2 {
                assert(bases.contains(numbered(bases[i], first)));
            } else if second >= 2 {
                assert(bases.contains(numbered(bases[j], second)));
            }
        }
    }
}

/// Where a base name is another one with a number behind it that is given out, two
/// tools are exported under one name.
pub proof fn law_clash_repeats_a_name(bases: Seq<Seq<char>>)
    requires
        clashing(bases),
    ensures
        !exported_names(bases).no_duplicates(),
{
    let (i, number) = choose|i: int, number: nat|
        0 <= i < bases.len() && 2 <= number <= occurrences(bases, bases[i]) && bases.contains(
            #[trigger] numbered(bases[i], number),
        );
    let j = choose|j: int| 0 <= j < bases.len() && bases[j] == numbered(bases[i], number);
    let names = exported_names(bases);
    assert(bases.take(bases.len() as int) =~= bases);
    let a = lemma_occurrence_position(bases, bases.len() as int, bases[i], number);
    lemma_occurrences_at(bases, j);
    lemma_occurrences_monotone(bases, j + 1, bases.len() as int, bases[j]);
    let b = lemma_occurrence_position(bases, bases.len() as int, bases[j], 1);
    lemma_decimal_length(number);
    assert(numbered(bases[i], number).len() > bases[i].len());
    assert(names[a] == bases[j] && names[b] == bases[j] && a != b);
}

/// The place of the `number`th occurrence of a text.
proof fn lemma_occurrence_position(
    list: Seq<Seq<char>>,
    end: int,
    text: Seq<char>,
    number: nat,
) -> (at: int)
    requires
        0 <= end <= list.len(),
        1 <= number <= occurrences(list.take(end), text),
    ensures
        0 <= at < end,
        list[at] == text,
        occurrences(list.take(at + 1), text) == number,
    decreases end,
{
    assert(list.take(end).drop_last() =~= list.take(end - 1));
    if number <= occurrences(list.take(end - 1), text) {
        lemma_occurrence_position(list, end - 1, text, number)
    } else {
        end - 1
    }
}

/// A list holds a text as often as the multiset of its items does.
proof fn lemma_occurrences_counted(list: Seq<Seq<char>>, text: Seq<char>)
    ensures
        occurrences(list, text) == list.to_multiset().count(text),
    decreases list.len(),
{
    broadcast use vstd::seq_lib::group_to_multiset_ensures;

    if list.len() > 0 {
        let front = list.drop_last();
        lemma_occurrences_counted(front, text);
        assert(list =~= front.push(list.last()));
    } else {
        assert(list =~= Seq::empty());
    }
}

/// Whether base names clash does not depend on their order.
pub proof fn law_clashing_ignores_order(left: Seq<Seq<char>>, right: Seq<Seq<char>>)
    requires
        left.to_multiset() == right.to_multiset(),
    ensures
        clashing(left) == clashing(right),
{
    lemma_clashing_carried(left, right);
    lemma_clashing_carried(right, left);
}

proof fn lemma_clashing_carried(left: Seq<Seq<char>>, right: Seq<Seq<char>>)
    requires
        left.to_multiset() == right.to_multiset(),
    ensures
        clashing(left) ==> clashing(right),
{
    broadcast use vstd::seq_lib::group_to_multiset_ensures;

    if clashing(left) {
        let (i, number) = choose|i: int, number: nat|
            0 <= i < left.len() && 2 <= number <= occurrences(left, left[i]) && left.contains(
                #[trigger] numbered(left[i], number),
            );
        let base = left[i];
        lemma_occurrences_counted(left, base);
        lemma_occurrences_counted(right, base);
        assert(right.to_multiset().count(numbered(base, number)) > 0);
        assert(right.contains(numbered(base, number)));
        assert(right.contains(base));
        let j = choose|j: int| 0 <= j < right.len() && right[j] == base;
        assert(right.contains(numbered(right[j], number)));
    }
}

/// A component in its final form: letters and digits in lower case and `_`, with no `_`
/// at either end and no two of them side by side.
pub open spec fn clean(component: Seq<char>) -> bool {
    &&& component.len() > 0
    &&& component[0] != '_'
    &&& component.last() != '_'
    &&& forall|i: int|
        0 <= i < component.len() ==> {
            ||| 'a' <= #[trigger] component[i] <= 'z'
            ||| '0' <= component[i] <= '9'
            ||| component[i] == '_'
        }
    &&& forall|i: int, j: int|
        0 <= i < component.len() && j == i + 1 && j < component.len() && #[trigger] component[i]
            == '_' ==> #[trigger] component[j] != '_'
}

/// As `clean`, whatever the ends are.
spec fn plain(text: Seq<char>) -> bool {
    &&& forall|i: int|
        0 <= i < text.len() ==> {
            ||| 'a' <= #[trigger] text[i] <= 'z'
            ||| '0' <= text[i] <= '9'
            ||| text[i] == '_'
        }
    &&& forall|i: int, j: int|
        0 <= i < text.len() && j == i + 1 && j < text.len() && #[trigger] text[i] == '_'
            ==> #[trigger] text[j] != '_'
}

proof fn lemma_collapsed_plain(value: Seq<char>)
    ensures
        plain(collapsed(value)),
    decreases value.len(),
{
    if value.len() > 0 {
        lemma_collapsed_plain(value.drop_last());
        if alphanumeric(value.last()) {
            lemma_lowered_alphanumeric(value.last());
        }
    }
}

proof fn lemma_trimmed_start(text: Seq<char>)
    requires
        plain(text),
    ensures
        plain(trimmed_start(text)),
        trimmed_start(text).len() > 0 ==> trimmed_start(text)[0] != '_',
    decreases text.len(),
{
    if text.len() > 0 && text[0] == '_' {
        assert(plain(text.drop_first()));
        lemma_trimmed_start(text.drop_first());
    }
}

proof fn lemma_trimmed_end(text: Seq<char>)
    requires
        plain(text),
        text.len() > 0 ==> text[0] != '_',
    ensures
        plain(trimmed_end(text)),
        trimmed_end(text).len() > 0 ==> trimmed_end(text)[0] != '_' && trimmed_end(text).last()
            != '_',
    decreases text.len(),
{
    if text.len() > 0 && text.last() == '_' {
        assert(plain(text.drop_last()));
        lemma_trimmed_end(text.drop_last());
    }
}

/// Every component comes out in its final form.
pub proof fn law_sanitized_clean(value: Seq<char>)
    ensures
        clean(sanitized(value)),
{
    reveal_strlit("unnamed");
    lemma_sanitized(value);
    lemma_collapsed_plain(value);
    lemma_trimmed_start(collapsed(value));
    lemma_trimmed_end(trimmed_start(collapsed(value)));
}

proof fn lemma_collapsed_same(text: Seq<char>)
    requires
        plain(text),
    ensures
        collapsed(text) == text,
    decreases text.len(),
{
    if text.len() > 0 {
        let front = text.drop_last();
        assert(plain(front));
        lemma_collapsed_same(front);
        if text.last() == '_' && front.len() > 0 {
            assert(text[front.len() - 1] == front.last());
            assert(front.last() != '_');
        }
        assert(collapsed(text) =~= front.push(text.last()));
        assert(front.push(text.last()) =~= text);
    } else {
        assert(collapsed(text) =~= text);
    }
}

/// A component in its final form stays as it is.
pub proof fn law_clean_is_kept(component: Seq<char>)
    requires
        clean(component),
    ensures
        sanitized(component) == component,
{
    assert(plain(component));
    lemma_sanitized(component);
    lemma_collapsed_same(component);
}

/// Making a component of a component changes nothing.
pub proof fn law_sanitize_idempotent(value: Seq<char>)
    ensures
        sanitized(sanitized(value)) == sanitized(value),
{
    law_sanitized_clean(value);
    law_clean_is_kept(sanitized(value));
}

/// Upper and lower case give one component: texts that differ in case alone, in ASCII
/// letters, are made the same.
pub proof fn law_case_gives_one_component(left: Seq<char>, right: Seq<char>)
    requires
        raised_text(left) == raised_text(right),
    ensures
        sanitized(left) == sanitized(right),
{
    lemma_runs_raised(left);
    lemma_runs_raised(right);
}

proof fn lemma_runs_raised(value: Seq<char>)
    ensures
        runs(raised_text(value)) == runs(value),
    decreases value.len(),
{
    if value.len() > 0 {
        let raised_value = raised_text(value);
        lemma_runs_raised(value.drop_last());
        assert(raised_value.drop_last() =~= raised_text(value.drop_last()));
        assert(raised_value.last() == raised(value.last()));
        lemma_lowered_raised(value.last());
        lemma_raised_alphanumeric(value.last());
        if value.len() > 1 {
            assert(raised_value[value.len() - 2] == raised(value[value.len() - 2]));
            lemma_raised_alphanumeric(value[value.len() - 2]);
        }
    } else {
        assert(runs(raised_text(value)) =~= runs(value));
    }
}

proof fn lemma_raised_alphanumeric(character: char)
    ensures
        alphanumeric(raised(character)) == alphanumeric(character),
{
    if 'a' <= character <= 'z' {
        assert(raised(character) as u32 == character as u32 - 32);
    }
}

/// The connector's name is not repeated in front of the tool's: where a tool's name
/// starts with it and a separator, the tool goes by the rest.
pub proof fn law_connector_prefix_is_dropped(
    server: Seq<char>,
    connector: Seq<char>,
    separator: char,
    tool: Seq<char>,
)
    requires
        !alphanumeric(separator),
        runs(connector).len() > 0,
        runs(tool).len() > 0,
    ensures
        base_name(server, Some(connector), connector.push(separator) + tool) == sanitized(
            server,
        ).push('.') + sanitized(connector).push('.') + sanitized(tool),
{
    reveal_strlit("_");
    let prefix = sanitized(connector).push('_');
    let whole = sanitized(connector.push(separator) + tool);
    lemma_runs_apart(connector, separator, tool);
    law_joined_lists(runs(connector), runs(tool), "_"@);
    assert(whole =~= prefix + sanitized(tool));
    law_sanitized_clean(tool);
    assert(whole.take(prefix.len() as int) =~= prefix);
    assert(whole.skip(sanitized(connector).len() as int + 1) =~= sanitized(tool));
}

/// A separator keeps the runs in front of it and behind it apart.
proof fn lemma_runs_apart(front: Seq<char>, separator: char, back: Seq<char>)
    requires
        !alphanumeric(separator),
    ensures
        runs(front.push(separator) + back) == runs(front) + runs(back),
    decreases back.len(),
{
    let whole = front.push(separator) + back;
    if back.len() == 0 {
        assert(whole =~= front.push(separator));
        assert(whole.drop_last() =~= front);
        assert(runs(front) + runs(back) =~= runs(front));
    } else {
        lemma_runs_apart(front, separator, back.drop_last());
        lemma_runs_words(back.drop_last());
        assert(whole.drop_last() =~= front.push(separator) + back.drop_last());
        assert(whole.last() == back.last());
        if back.len() == 1 {
            assert(whole[whole.len() - 2] == separator);
        } else {
            assert(whole[whole.len() - 2] == back[back.len() - 2]);
            assert(back.drop_last().last() == back[back.len() - 2]);
        }
        assert(runs(whole) =~= runs(front) + runs(back));
    }
}

/// Over a sequence of calls that starts with no name given out, the names are the base
/// names, each numbered by how often it has come up to then.
pub proof fn law_names_over_calls(
    bases: Seq<Seq<char>>,
    states: Seq<UsedNames>,
    names: Seq<Seq<char>>,
)
    requires
        names.len() == bases.len(),
        states.len() == bases.len() + 1,
        forall|name: Seq<char>| #[trigger] states[0].uses(name) == 0,
        forall|i: int|
            0 <= i < bases.len() ==> gives_name(states[i], bases[i], states[i + 1], #[trigger] names[i]),
    ensures
        names == exported_names(bases),
{
    assert forall|i: int| 0 <= i < bases.len() implies #[trigger] names[i] == exported_names(
        bases,
    )[i] by {
        lemma_uses_over_calls(bases, states, names, i);
        lemma_occurrences_at(bases, i);
        assert(states[i].uses(bases[i]) == occurrences(bases.take(i), bases[i]));
    }
    assert(names =~= exported_names(bases));
}

proof fn lemma_uses_over_calls(
    bases: Seq<Seq<char>>,
    states: Seq<UsedNames>,
    names: Seq<Seq<char>>,
    upto: int,
)
    requires
        0 <= upto <= bases.len(),
        names.len() == bases.len(),
        states.len() == bases.len() + 1,
        forall|name: Seq<char>| #[trigger] states[0].uses(name) == 0,
        forall|i: int|
            0 <= i < bases.len() ==> gives_name(states[i], bases[i], states[i + 1], #[trigger] names[i]),
    ensures
        forall|name: Seq<char>|
            #[trigger] states[upto].uses(name) == occurrences(bases.take(upto), name),
    decreases upto,
{
    if upto > 0 {
        lemma_uses_over_calls(bases, states, names, upto - 1);
        assert(bases.take(upto).drop_last() =~= bases.take(upto - 1));
        assert(gives_name(states[upto - 1], bases[upto - 1], states[upto], names[upto - 1]));
        assert forall|name: Seq<char>| #[trigger] states[upto].uses(name) == occurrences(
            bases.take(upto),
            name,
        ) by {
            assert(states[upto - 1].uses(name) == occurrences(bases.take(upto - 1), name));
        }
    }
}

/// How many dots a text has.
pub open spec fn dots(text: Seq<char>) -> nat
    decreases text.len(),
{
    if text.len() == 0 {
        0
    } else {
        dots(text.drop_last()) + if text.last() == '.' {
            1nat
        } else {
            0nat
        }
    }
}

proof fn lemma_dots_added(left: Seq<char>, right: Seq<char>)
    ensures
        dots(left + right) == dots(left) + dots(right),
    decreases right.len(),
{
    if right.len() == 0 {
        assert(left + right =~= left);
    } else {
        lemma_dots_added(left, right.drop_last());
        assert((left + right).drop_last() =~= left + right.drop_last());
    }
}

proof fn lemma_dots_none(text: Seq<char>)
    requires
        forall|i: int| 0 <= i < text.len() ==> #[trigger] text[i] != '.',
    ensures
        dots(text) == 0,
    decreases text.len(),
{
    if text.len() > 0 {
        lemma_dots_none(text.drop_last());
    }
}

proof fn lemma_dots_pushed(text: Seq<char>)
    ensures
        dots(text.push('.')) == dots(text) + 1,
{
    assert(text.push('.').drop_last() =~= text);
}

/// A base name has one dot without a connector, and two with one.
pub proof fn lemma_base_dots(server: Seq<char>, connector: Option<Seq<char>>, tool: Seq<char>)
    ensures
        dots(base_name(server, connector, tool)) == if connector is Some {
            2nat
        } else {
            1nat
        },
{
    law_sanitized_clean(server);
    law_sanitized_clean(tool);
    lemma_dots_none(sanitized(server));
    lemma_dots_pushed(sanitized(server));
    match connector {
        Some(connector) => {
            let rest = stripped(sanitized(tool), sanitized(connector));
            law_sanitized_clean(connector);
            lemma_dots_none(sanitized(connector));
            lemma_dots_pushed(sanitized(connector));
            assert forall|i: int| 0 <= i < rest.len() implies #[trigger] rest[i] != '.' by {
                if rest.len() < sanitized(tool).len() {
                    assert(rest[i] == sanitized(tool)[i + sanitized(connector).len() + 1]);
                }
            }
            lemma_dots_none(rest);
            lemma_dots_added(sanitized(server).push('.'), sanitized(connector).push('.'));
            lemma_dots_added(
                sanitized(server).push('.') + sanitized(connector).push('.'),
                rest,
            );
        },
        None => {
            lemma_dots_none(sanitized(tool));
            lemma_dots_added(sanitized(server).push('.'), sanitized(tool));
        },
    }
}

/// Base names that all have as many dots do not clash.
pub proof fn law_even_names_do_not_clash(bases: Seq<Seq<char>>, count: nat)
    requires
        forall|i: int| 0 <= i < bases.len() ==> dots(#[trigger] bases[i]) == count,
    ensures
        !clashing(bases),
{
    if clashing(bases) {
        let (i, number) = choose|i: int, number: nat|
            0 <= i < bases.len() && 2 <= number <= occurrences(bases, bases[i]) && bases.contains(
                #[trigger] numbered(bases[i], number),
            );
        let j = choose|j: int| 0 <= j < bases.len() && bases[j] == numbered(bases[i], number);
        lemma_decimal_digits(number);
        lemma_dots_none(decimal(number));
        lemma_dots_pushed(bases[i]);
        lemma_dots_added(bases[i].push('.'), decimal(number));
        assert(dots(bases[j]) == dots(bases[i]) + 1);
    }
}

/// The letters and digits of ASCII are just these.
pub proof fn law_alphanumeric(character: char)
    ensures
        alphanumeric(character) <==> "ABCDEFGHIJKLMNOPQRSTUVWXYZ"@.contains(character)
            || "abcdefghijklmnopqrstuvwxyz"@.contains(character) || "0123456789"@.contains(
            character,
        ),
{
    reveal_strlit("ABCDEFGHIJKLMNOPQRSTUVWXYZ");
    reveal_strlit("abcdefghijklmnopqrstuvwxyz");
    reveal_strlit("0123456789");
    let code = character as int;
    if 'A' <= character <= 'Z' {
        assert("ABCDEFGHIJKLMNOPQRSTUVWXYZ"@[code - 65] == character);
    }
    if 'a' <= character <= 'z' {
        assert("abcdefghijklmnopqrstuvwxyz"@[code - 97] == character);
    }
    if '0' <= character <= '9' {
        assert("0123456789"@[code - 48] == character);
    }
}

/// No character of the text is a letter or digit.
pub open spec fn bare(text: Seq<char>) -> bool {
    forall|i: int| 0 <= i < text.len() ==> !alphanumeric(#[trigger] text[i])
}

/// A text of letters and digits alone is made lower case and nothing else.
pub proof fn law_words_are_kept(text: Seq<char>)
    requires
        text.len() > 0,
        forall|i: int| 0 <= i < text.len() ==> alphanumeric(#[trigger] text[i]),
    ensures
        sanitized(text) == lowered_text(text),
{
    lemma_runs_of_word(text);
}

proof fn lemma_runs_of_word(text: Seq<char>)
    requires
        text.len() > 0,
        forall|i: int| 0 <= i < text.len() ==> alphanumeric(#[trigger] text[i]),
    ensures
        runs(text) == seq![lowered_text(text)],
    decreases text.len(),
{
    let front = text.drop_last();
    assert(alphanumeric(text[text.len() - 1]));
    if front.len() == 0 {
        assert(runs(front) =~= Seq::empty());
        assert(seq![lowered(text.last())] =~= lowered_text(text));
        assert(runs(text) =~= seq![lowered_text(text)]);
    } else {
        lemma_runs_of_word(front);
        assert(alphanumeric(text[text.len() - 2]));
        assert(lowered_text(front).push(lowered(text.last())) =~= lowered_text(text));
        assert(runs(text) =~= seq![lowered_text(text)]);
    }
}

/// What stands between two texts with letters or digits, and is none itself, becomes one
/// `_`.
pub proof fn law_gaps_become_one_mark(left: Seq<char>, gap: Seq<char>, right: Seq<char>)
    requires
        !bare(left),
        !bare(right),
        bare(gap),
        gap.len() > 0,
    ensures
        sanitized(left + gap + right) == sanitized(left).push('_') + sanitized(right),
{
    reveal_strlit("_");
    let front = left + gap.drop_last();
    assert(left + gap + right =~= front.push(gap.last()) + right);
    assert(!alphanumeric(gap[gap.len() - 1]));
    lemma_runs_apart(front, gap.last(), right);
    lemma_runs_before_bare(left, gap.drop_last());
    lemma_runs_some(left);
    lemma_runs_some(right);
    law_joined_lists(runs(left), runs(right), "_"@);
    assert(sanitized(left + gap + right) =~= sanitized(left).push('_') + sanitized(right));
}

/// What stands in front of the first letter or digit, or behind the last, is dropped.
pub proof fn law_edges_are_dropped(front: Seq<char>, value: Seq<char>, back: Seq<char>)
    requires
        bare(front),
        bare(back),
    ensures
        sanitized(front + value + back) == sanitized(value),
{
    lemma_runs_before_bare(front + value, back);
    if front.len() == 0 {
        assert(front + value =~= value);
    } else {
        let rest = front.drop_last();
        assert(!alphanumeric(front[front.len() - 1]));
        assert(front + value =~= rest.push(front.last()) + value);
        lemma_runs_apart(rest, front.last(), value);
        assert(Seq::<char>::empty() + rest =~= rest);
        lemma_runs_before_bare(Seq::empty(), rest);
        assert(runs(rest) + runs(value) =~= runs(value));
    }
}

/// A text without letters and digits is called `unnamed`.
pub proof fn law_unnamed(value: Seq<char>)
    requires
        bare(value),
    ensures
        sanitized(value) == "unnamed"@,
{
    assert(Seq::<char>::empty() + value =~= value);
    lemma_runs_before_bare(Seq::empty(), value);
}

proof fn lemma_runs_before_bare(value: Seq<char>, back: Seq<char>)
    requires
        bare(back),
    ensures
        runs(value + back) == runs(value),
    decreases back.len(),
{
    if back.len() == 0 {
        assert(value + back =~= value);
    } else {
        assert((value + back).drop_last() =~= value + back.drop_last());
        assert(!alphanumeric(back[back.len() - 1]));
        lemma_runs_before_bare(value, back.drop_last());
    }
}

proof fn lemma_runs_some(value: Seq<char>)
    requires
        !bare(value),
    ensures
        runs(value).len() > 0,
    decreases value.len(),
{
    lemma_runs_words(value);
    if !alphanumeric(value.last()) {
        let front = value.drop_last();
        let i = choose|i: int| 0 <= i < value.len() && alphanumeric(#[trigger] value[i]);
        assert(front[i] == value[i]);
        lemma_runs_some(front);
    }
}

/// A prefix and a `_` or `-` behind it are taken off where something is left, and what is
/// taken off is nothing else.
pub proof fn law_stripped(prefix: Seq<char>, rest: Seq<char>, tool: Seq<char>)
    ensures
        rest.len() > 0 ==> stripped(prefix.push('_') + rest, prefix) == rest,
        rest.len() > 0 ==> stripped(prefix.push('-') + rest, prefix) == rest,
        stripped(tool, prefix) != tool ==> stripped(tool, prefix).len() > 0 && (tool
            == prefix.push('_') + stripped(tool, prefix) || tool == prefix.push('-') + stripped(
            tool,
            prefix,
        )),
{
    let n = prefix.len() as int + 1;
    let under = prefix.push('_') + rest;
    let dash = prefix.push('-') + rest;
    assert(under.take(n) =~= prefix.push('_'));
    assert(under.skip(n) =~= rest);
    assert(dash.take(n) =~= prefix.push('-'));
    assert(dash.skip(n) =~= rest);
    if extends(tool, prefix.push('_')) {
        assert(tool =~= prefix.push('_') + tool.skip(n));
    } else if extends(tool, prefix.push('-')) {
        assert(tool =~= prefix.push('-') + tool.skip(n));
    }
}

/// Names have the server first, then the connector where there is one, then the tool, with
/// a dot between each two of them.
pub proof fn law_base_name(server: Seq<char>, connector: Seq<char>, tool: Seq<char>)
    ensures
        base_name(server, None, tool) == sanitized(server) + "."@ + sanitized(tool),
        base_name(server, Some(connector), tool) == sanitized(server) + "."@ + sanitized(connector)
            + "."@ + stripped(sanitized(tool), sanitized(connector)),
{
    reveal_strlit(".");
    assert(base_name(server, None, tool) =~= sanitized(server) + "."@ + sanitized(tool));
    assert(base_name(server, Some(connector), tool) =~= sanitized(server) + "."@ + sanitized(
        connector,
    ) + "."@ + stripped(sanitized(tool), sanitized(connector)));
}

/// A tool goes by its base name where none of those ahead of it has that base name, and
/// else has the number behind it that it has among them.
pub proof fn law_exported_names(bases: Seq<Seq<char>>, at: int)
    requires
        0 <= at < bases.len(),
    ensures
        exported_names(bases).len() == bases.len(),
        ({
            let ahead = bases.take(at).to_multiset().count(bases[at]);
            exported_names(bases)[at] == if ahead == 0 {
                bases[at]
            } else {
                bases[at] + "."@ + decimal(ahead + 1)
            }
        }),
{
    reveal_strlit(".");
    lemma_occurrences_at(bases, at);
    lemma_occurrences_counted(bases.take(at), bases[at]);
    let ahead = bases.take(at).to_multiset().count(bases[at]);
    assert(bases[at] + "."@ =~= bases[at].push('.'));
}

} // verus!
