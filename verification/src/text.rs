//! Text helpers: equality, order, search, joining and decimal notation, all stated
//! over the characters of a string.

use vstd::prelude::*;
use vstd::string::*;

verus! {

/// `String::push`: appends one character at the end.
pub assume_specification[ std::string::String::push ](text: &mut String, character: char)
    ensures
        final(text)@ == old(text)@.push(character),
;

/// A text of ASCII characters alone.
pub open spec fn ascii(text: Seq<char>) -> bool {
    forall|i: int| 0 <= i < text.len() ==> (#[trigger] text[i] as u32) < 128
}

/// The character with an upper case ASCII letter made lower case.
pub open spec fn lowered(character: char) -> char {
    if 'A' <= character <= 'Z' {
        (character as u32 + 32) as char
    } else {
        character
    }
}

/// The character with a lower case ASCII letter made upper case.
pub open spec fn raised(character: char) -> char {
    if 'a' <= character <= 'z' {
        (character as u32 - 32) as char
    } else {
        character
    }
}

/// The text with its ASCII letters made lower case.
pub open spec fn lowered_text(text: Seq<char>) -> Seq<char> {
    Seq::new(text.len(), |i: int| lowered(text[i]))
}

/// The text with its ASCII letters made upper case.
pub open spec fn raised_text(text: Seq<char>) -> Seq<char> {
    Seq::new(text.len(), |i: int| raised(text[i]))
}

/// Makes an upper case ASCII letter lower case.
pub(crate) fn lower(character: char) -> (result: char)
    ensures
        result == lowered(character),
{
    if 'A' <= character && character <= 'Z' {
        (character as u8 + 32) as char
    } else {
        character
    }
}

/// Makes a lower case ASCII letter upper case.
pub(crate) fn raise(character: char) -> (result: char)
    ensures
        result == raised(character),
{
    if 'a' <= character && character <= 'z' {
        (character as u8 - 32) as char
    } else {
        character
    }
}

/// Upper case is lost when a character is made lower case.
pub proof fn lemma_lowered_raised(character: char)
    ensures
        lowered(raised(character)) == lowered(character),
{
    if 'a' <= character <= 'z' {
        assert(raised(character) as u32 == character as u32 - 32);
        assert('A' <= raised(character) <= 'Z');
        assert(lowered(raised(character)) as u32 == character as u32);
    }
}

/// What `str::to_lowercase` returns for a text: its Unicode lower case.
pub uninterp spec fn lowercase(text: Seq<char>) -> Seq<char>;

/// `str::to_lowercase`. The result depends on the text alone. For a text of ASCII
/// characters it is the text with its letters made lower case; for any other it is
/// named, not described: the Unicode case tables decide it.
#[verifier::external_body]
fn to_lowercase(text: &str) -> (lower_case: String)
    ensures
        lower_case@ == lowercase(text@),
        ascii(text@) ==> lower_case@ == lowered_text(text@),
{
    text.to_lowercase()
}

/// The text without a difference between upper and lower case.
pub open spec fn folded(text: Seq<char>) -> Seq<char> {
    if ascii(text) {
        lowered_text(text)
    } else {
        lowercase(text)
    }
}

/// Takes the difference between upper and lower case out of a text.
pub(crate) fn fold_case(text: &str) -> (result: String)
    ensures
        result@ == folded(text@),
{
    to_lowercase(text)
}

/// White space: the characters with the Unicode property White_Space.
pub open spec fn white_space(character: char) -> bool {
    let code = character as u32;
    ||| 0x9 <= code <= 0xd
    ||| code == 0x20
    ||| code == 0x85
    ||| code == 0xa0
    ||| code == 0x1680
    ||| 0x2000 <= code <= 0x200a
    ||| code == 0x2028
    ||| code == 0x2029
    ||| code == 0x202f
    ||| code == 0x205f
    ||| code == 0x3000
}

/// Whether a character is white space.
fn is_white_space(character: char) -> (answer: bool)
    ensures
        answer == white_space(character),
{
    let code: u32 = character as u32;
    (0x9 <= code && code <= 0xd) || code == 0x20 || code == 0x85 || code == 0xa0 || code == 0x1680
        || (0x2000 <= code && code <= 0x200a) || code == 0x2028 || code == 0x2029 || code == 0x202f
        || code == 0x205f || code == 0x3000
}

/// A text of nothing but white space, the empty text among them.
pub open spec fn blank(text: Seq<char>) -> bool {
    forall|i: int| 0 <= i < text.len() ==> white_space(#[trigger] text[i])
}

/// Whether a text is blank.
pub fn is_blank(text: &str) -> (answer: bool)
    ensures
        answer == blank(text@),
{
    let chars: Vec<char> = chars_of(text);
    let mut i: usize = 0;
    while i < chars.len()
        invariant
            i <= chars.len(),
            chars@ == text@,
            forall|j: int| 0 <= j < i ==> white_space(#[trigger] text@[j]),
        decreases chars.len() - i,
    {
        if !is_white_space(chars[i]) {
            return false;
        }
        i += 1;
    }
    true
}

/// The characters of a text.
pub(crate) fn chars_of(text: &str) -> (chars: Vec<char>)
    ensures
        chars@ == text@,
{
    let mut chars: Vec<char> = Vec::new();
    for character in it: text.chars()
        invariant
            chars@ == it.seq().take(it.index() as int),
            it.seq() == text@,
    {
        chars.push(character);
    }
    chars
}

/// Whether two texts hold the same characters.
pub(crate) fn same_text(left: &str, right: &str) -> (answer: bool)
    ensures
        answer == (left@ == right@),
{
    left.to_owned() == right.to_owned()
}

/// The texts that a list of strings holds.
pub open spec fn texts(list: Seq<String>) -> Seq<Seq<char>> {
    Seq::new(list.len(), |i: int| list[i]@)
}

/// The text that an optional string holds.
pub open spec fn optional_text(text: Option<String>) -> Option<Seq<char>> {
    match text {
        Some(text) => Some(text@),
        None => None,
    }
}

/// The text that an optional string slice holds.
pub open spec fn optional_str(text: Option<&str>) -> Option<Seq<char>> {
    match text {
        Some(text) => Some(text@),
        None => None,
    }
}

/// An optional string as a slice.
pub(crate) fn optional_slice(text: &Option<String>) -> (slice: Option<&str>)
    ensures
        optional_str(slice) == optional_text(*text),
{
    match text {
        Some(text) => Some(text.as_str()),
        None => None,
    }
}

/// `needle` stands in `haystack` at position `at`.
pub open spec fn occurs_at(haystack: Seq<char>, needle: Seq<char>, at: int) -> bool {
    &&& 0 <= at
    &&& at + needle.len() <= haystack.len()
    &&& haystack.subrange(at, at + needle.len()) == needle
}

/// `needle` stands somewhere in `haystack`.
pub open spec fn occurs(haystack: Seq<char>, needle: Seq<char>) -> bool {
    exists|at: int| #[trigger] occurs_at(haystack, needle, at)
}

/// Whether `needle` stands somewhere in `haystack`.
pub(crate) fn contains_text(haystack: &str, needle: &str) -> (answer: bool)
    ensures
        answer == occurs(haystack@, needle@),
{
    let hay: Vec<char> = chars_of(haystack);
    let wanted: Vec<char> = chars_of(needle);
    let mut at: usize = 0;
    while wanted.len() <= hay.len() - at
        invariant
            hay@ == haystack@,
            wanted@ == needle@,
            at <= hay.len(),
            forall|earlier: int| 0 <= earlier < at ==> !occurs_at(hay@, wanted@, earlier),
        decreases hay.len() - at,
    {
        if matches_at(&hay, &wanted, at) {
            assert(occurs_at(haystack@, needle@, at as int));
            return true;
        }
        if wanted.len() == 0 {
            assert(hay@.subrange(at as int, at as int) =~= wanted@);
        }
        at += 1;
    }
    assert(forall|any: int| !occurs_at(haystack@, needle@, any));
    false
}

/// Whether `wanted` stands in `hay` at position `at`.
pub(crate) fn matches_at(hay: &Vec<char>, wanted: &Vec<char>, at: usize) -> (answer: bool)
    requires
        at + wanted.len() <= hay.len(),
    ensures
        answer == occurs_at(hay@, wanted@, at as int),
{
    let mut i: usize = 0;
    while i < wanted.len()
        invariant
            i <= wanted.len(),
            at + wanted.len() <= hay.len(),
            forall|j: int| 0 <= j < i ==> hay@[at + j] == #[trigger] wanted@[j],
        decreases wanted.len() - i,
    {
        if hay[at + i] != wanted[i] {
            assert(hay@.subrange(at as int, at + wanted@.len())[i as int] != wanted@[i as int]);
            return false;
        }
        i += 1;
    }
    assert(hay@.subrange(at as int, at + wanted@.len()) =~= wanted@);
    true
}

/// The texts one after another, with `separator` between each two of them.
pub open spec fn joined(parts: Seq<Seq<char>>, separator: Seq<char>) -> Seq<char>
    decreases parts.len(),
{
    if parts.len() == 0 {
        Seq::empty()
    } else if parts.len() == 1 {
        parts[0]
    } else {
        joined(parts.drop_last(), separator) + separator + parts.last()
    }
}

/// Joins strings with a separator.
pub(crate) fn join(parts: &Vec<String>, separator: &str) -> (text: String)
    ensures
        text@ == joined(texts(parts@), separator@),
{
    let mut text: String = String::new();
    let mut i: usize = 0;
    while i < parts.len()
        invariant
            i <= parts.len(),
            text@ == joined(texts(parts@).take(i as int), separator@),
        decreases parts.len() - i,
    {
        if i > 0 {
            text.append(separator);
        }
        text.append(parts[i].as_str());
        proof {
            let upto = texts(parts@).take(i + 1);
            assert(upto.drop_last() =~= texts(parts@).take(i as int));
            assert(upto.last() == parts@[i as int]@);
            assert(text@ =~= joined(upto, separator@));
        }
        i += 1;
    }
    assert(texts(parts@).take(parts@.len() as int) =~= texts(parts@));
    text
}

/// The character of a decimal digit.
pub open spec fn digit(value: nat) -> char {
    (48 + value) as char
}

/// The decimal digits of a number, most significant first.
pub open spec fn decimal(number: nat) -> Seq<char>
    decreases number,
{
    if number < 10 {
        seq![digit(number)]
    } else {
        decimal(number / 10).push(digit(number % 10))
    }
}

/// Writes a number in decimal.
pub(crate) fn decimal_text(number: usize) -> (text: String)
    ensures
        text@ == decimal(number as nat),
    decreases number,
{
    let last: char = (48u8 + (number % 10) as u8) as char;
    let mut text: String = if number < 10 {
        String::new()
    } else {
        decimal_text(number / 10)
    };
    text.push(last);
    assert(text@ =~= decimal(number as nat));
    text
}

/// A decimal notation has one digit exactly if the number is below ten, and always one
/// or more.
pub proof fn lemma_decimal_length(number: nat)
    ensures
        decimal(number).len() >= 1,
        number < 10 <==> decimal(number).len() == 1,
    decreases number,
{
    if number >= 10 {
        lemma_decimal_length(number / 10);
    }
}

/// Different numbers have different decimal notations.
pub proof fn lemma_decimal_injective(left: nat, right: nat)
    requires
        decimal(left) == decimal(right),
    ensures
        left == right,
    decreases left,
{
    lemma_decimal_length(left);
    lemma_decimal_length(right);
    if left < 10 {
        assert(decimal(left)[0] == digit(left) && decimal(right)[0] == digit(right));
        assert(digit(left) as int == 48 + left && digit(right) as int == 48 + right);
    } else {
        assert(decimal(left).drop_last() =~= decimal(left / 10));
        assert(decimal(right).drop_last() =~= decimal(right / 10));
        lemma_decimal_injective(left / 10, right / 10);
        assert(decimal(left).last() == digit(left % 10));
        assert(decimal(right).last() == digit(right % 10));
        assert(digit(left % 10) as int == 48 + left % 10);
        assert(digit(right % 10) as int == 48 + right % 10);
    }
}

/// A decimal notation holds nothing but digits.
pub proof fn lemma_decimal_digits(number: nat)
    ensures
        forall|i: int| 0 <= i < decimal(number).len() ==> '0' <= #[trigger] decimal(number)[i] <= '9',
    decreases number,
{
    if number < 10 {
        assert(decimal(number)[0] == digit(number));
        assert(digit(number) as int == 48 + number);
    } else {
        lemma_decimal_digits(number / 10);
        assert(digit(number % 10) as int == 48 + number % 10);
        assert forall|i: int| 0 <= i < decimal(number).len() implies '0' <= #[trigger] decimal(
            number,
        )[i] <= '9' by {
            if i < decimal(number / 10).len() {
                assert(decimal(number)[i] == decimal(number / 10)[i]);
            }
        }
    }
}

/// The texts agree on their first `at` characters, and there `left` ends or holds the
/// smaller character.
pub open spec fn smaller_at(left: Seq<char>, right: Seq<char>, at: int) -> bool {
    &&& 0 <= at <= left.len()
    &&& at < right.len()
    &&& left.take(at) == right.take(at)
    &&& at < left.len() ==> left[at] < right[at]
}

/// The order of texts: by the first character that differs, a text before its
/// extensions.
pub open spec fn text_before(left: Seq<char>, right: Seq<char>) -> bool {
    exists|at: int| #[trigger] smaller_at(left, right, at)
}

/// Whether one text comes before another.
pub(crate) fn is_before(left: &str, right: &str) -> (answer: bool)
    ensures
        answer == text_before(left@, right@),
{
    let a: Vec<char> = chars_of(left);
    let b: Vec<char> = chars_of(right);
    let mut i: usize = 0;
    while i < a.len() && i < b.len() && a[i] == b[i]
        invariant
            i <= a.len(),
            i <= b.len(),
            a@.take(i as int) == b@.take(i as int),
        decreases a.len() - i,
    {
        assert(a@.take(i + 1) =~= a@.take(i as int).push(a@[i as int]));
        assert(b@.take(i + 1) =~= b@.take(i as int).push(b@[i as int]));
        i += 1;
    }
    let answer: bool = i < b.len() && (i == a.len() || a[i] < b[i]);
    proof {
        if answer {
            assert(smaller_at(a@, b@, i as int));
        } else {
            assert forall|at: int| !smaller_at(a@, b@, at) by {
                if smaller_at(a@, b@, at) {
                    if at < i {
                        assert(a@.take(i as int)[at] == b@.take(i as int)[at]);
                    } else if at > i {
                        assert(a@.take(at)[i as int] == b@.take(at)[i as int]);
                    }
                }
            }
        }
    }
    answer
}

/// No text comes before itself.
pub proof fn lemma_before_irreflexive(text: Seq<char>)
    ensures
        !text_before(text, text),
{
}

/// The order of texts is transitive.
pub proof fn lemma_before_transitive(first: Seq<char>, second: Seq<char>, third: Seq<char>)
    requires
        text_before(first, second),
        text_before(second, third),
    ensures
        text_before(first, third),
{
    let i = choose|at: int| smaller_at(first, second, at);
    let j = choose|at: int| smaller_at(second, third, at);
    let k = if i < j { i } else { j };
    assert(first.take(k) =~= first.take(i).take(k));
    assert(second.take(k) =~= second.take(i).take(k));
    assert(second.take(k) =~= second.take(j).take(k));
    assert(third.take(k) =~= third.take(j).take(k));
    if i < j {
        assert(second.take(j)[i] == third.take(j)[i]);
    } else if j < i {
        assert(first.take(i)[j] == second.take(i)[j]);
    }
    assert(smaller_at(first, third, k));
}

/// Of two texts at most one comes before the other.
pub proof fn lemma_before_asymmetric(left: Seq<char>, right: Seq<char>)
    ensures
        !(text_before(left, right) && text_before(right, left)),
{
    if text_before(left, right) && text_before(right, left) {
        lemma_before_transitive(left, right, left);
        lemma_before_irreflexive(left);
    }
}

/// Between two texts, one before the other, a third is behind the one or before the
/// other.
pub proof fn lemma_before_between(first: Seq<char>, any: Seq<char>, last: Seq<char>)
    ensures
        text_before(first, last) ==> text_before(first, any) || text_before(any, last),
{
    lemma_before_total(first, any);
    if text_before(first, last) && text_before(any, first) {
        lemma_before_transitive(any, first, last);
    }
}

/// Of two different texts one comes before the other.
pub proof fn lemma_before_total(left: Seq<char>, right: Seq<char>)
    ensures
        left == right || text_before(left, right) || text_before(right, left),
{
    assert(left.take(0) =~= right.take(0));
    lemma_common_prefix(left, right, 0);
}

proof fn lemma_common_prefix(left: Seq<char>, right: Seq<char>, agreed: int)
    requires
        0 <= agreed <= left.len(),
        agreed <= right.len(),
        left.take(agreed) == right.take(agreed),
    ensures
        left == right || text_before(left, right) || text_before(right, left),
    decreases left.len() - agreed,
{
    if agreed == left.len() && agreed == right.len() {
        assert(left.take(agreed) =~= left);
        assert(right.take(agreed) =~= right);
    } else if agreed == left.len() {
        assert(smaller_at(left, right, agreed));
    } else if agreed == right.len() {
        assert(smaller_at(right, left, agreed));
    } else if left[agreed] < right[agreed] {
        assert(smaller_at(left, right, agreed));
    } else if right[agreed] < left[agreed] {
        assert(smaller_at(right, left, agreed));
    } else {
        assert(left.take(agreed + 1) =~= left.take(agreed).push(left[agreed]));
        assert(right.take(agreed + 1) =~= right.take(agreed).push(right[agreed]));
        lemma_common_prefix(left, right, agreed + 1);
    }
}

/// A text stands in another exactly if that other is the text with something, or nothing,
/// in front of it and behind it.
pub proof fn law_occurs(haystack: Seq<char>, needle: Seq<char>)
    ensures
        occurs(haystack, needle) <==> exists|front: Seq<char>, back: Seq<char>|
            haystack == #[trigger] (front + needle + back),
{
    if occurs(haystack, needle) {
        let at = choose|at: int| #[trigger] occurs_at(haystack, needle, at);
        let front = haystack.take(at);
        let back = haystack.skip(at + needle.len());
        assert(haystack.subrange(at, at + needle.len()) == needle);
        assert(haystack =~= front + needle + back);
    }
    if exists|front: Seq<char>, back: Seq<char>| haystack == #[trigger] (front + needle + back) {
        let (front, back) = choose|front: Seq<char>, back: Seq<char>|
            haystack == #[trigger] (front + needle + back);
        let at = front.len() as int;
        assert(haystack.subrange(at, at + needle.len()) =~= needle);
        assert(occurs_at(haystack, needle, at));
    }
}

/// A text is blank exactly if each of its parts is; a single character is if it is white
/// space, and the empty text is.
pub proof fn law_blank(left: Seq<char>, right: Seq<char>, character: char)
    ensures
        blank(Seq::empty()),
        blank(seq![character]) == white_space(character),
        blank(left + right) == (blank(left) && blank(right)),
{
    assert(seq![character][0] == character);
    if blank(left + right) {
        assert forall|i: int| 0 <= i < left.len() implies white_space(#[trigger] left[i]) by {
            assert((left + right)[i] == left[i]);
        }
        assert forall|i: int| 0 <= i < right.len() implies white_space(#[trigger] right[i]) by {
            assert((left + right)[left.len() + i] == right[i]);
        }
    }
}

/// Upper and lower case letters go in pairs, and no other character has two forms.
pub proof fn law_letters_go_in_pairs(at: int, other: char)
    requires
        0 <= at < 26,
        !"ABCDEFGHIJKLMNOPQRSTUVWXYZ"@.contains(other),
        !"abcdefghijklmnopqrstuvwxyz"@.contains(other),
    ensures
        lowered("ABCDEFGHIJKLMNOPQRSTUVWXYZ"@[at]) == "abcdefghijklmnopqrstuvwxyz"@[at],
        lowered("abcdefghijklmnopqrstuvwxyz"@[at]) == "abcdefghijklmnopqrstuvwxyz"@[at],
        raised("abcdefghijklmnopqrstuvwxyz"@[at]) == "ABCDEFGHIJKLMNOPQRSTUVWXYZ"@[at],
        raised("ABCDEFGHIJKLMNOPQRSTUVWXYZ"@[at]) == "ABCDEFGHIJKLMNOPQRSTUVWXYZ"@[at],
        lowered(other) == other,
        raised(other) == other,
{
    reveal_strlit("ABCDEFGHIJKLMNOPQRSTUVWXYZ");
    reveal_strlit("abcdefghijklmnopqrstuvwxyz");
    let upper = "ABCDEFGHIJKLMNOPQRSTUVWXYZ"@;
    let lower_case = "abcdefghijklmnopqrstuvwxyz"@;
    assert(upper[at] as int == 65 + at);
    assert(lower_case[at] as int == 97 + at);
    if 'A' <= other <= 'Z' {
        assert(upper[other as int - 65] == other);
    }
    if 'a' <= other <= 'z' {
        assert(lower_case[other as int - 97] == other);
    }
}

/// Joining no texts gives nothing, joining one gives that one, and joining two lists is
/// joining each and setting a separator between.
pub proof fn law_joined_lists(front: Seq<Seq<char>>, back: Seq<Seq<char>>, separator: Seq<char>)
    requires
        front.len() > 0,
        back.len() > 0,
    ensures
        joined(Seq::empty(), separator) == Seq::<char>::empty(),
        joined(seq![front[0]], separator) == front[0],
        joined(front + back, separator) == joined(front, separator) + separator + joined(
            back,
            separator,
        ),
    decreases back.len(),
{
    let whole = front + back;
    assert(whole.drop_last() =~= front + back.drop_last());
    assert(whole.last() == back.last());
    if back.len() == 1 {
        assert(whole.drop_last() =~= front);
        assert(joined(whole, separator) =~= joined(front, separator) + separator + joined(
            back,
            separator,
        ));
    } else {
        law_joined_lists(front, back.drop_last(), separator);
        assert(joined(whole, separator) =~= joined(front, separator) + separator + joined(
            back,
            separator,
        ));
    }
}

/// The first characters that differ decide which text comes first; a text comes before
/// those that go on where it ends; and of two different texts exactly one comes first.
pub proof fn law_text_order(
    common: Seq<char>,
    smaller: char,
    larger: char,
    left: Seq<char>,
    right: Seq<char>,
)
    ensures
        smaller < larger ==> text_before(
            common.push(smaller) + left,
            common.push(larger) + right,
        ),
        text_before(common, common.push(smaller) + left),
        !text_before(common, common),
        left != right ==> text_before(left, right) != text_before(right, left),
{
    let one = common.push(smaller) + left;
    let other = common.push(larger) + right;
    let at = common.len() as int;
    assert(one.take(at) =~= common);
    assert(other.take(at) =~= common);
    assert(common.take(at) =~= common);
    assert(one[at] == smaller && other[at] == larger);
    if smaller < larger {
        assert(smaller_at(one, other, at));
    }
    assert(smaller_at(common, one, at));
    lemma_before_irreflexive(common);
    if left != right {
        lemma_before_total(left, right);
        if text_before(left, right) {
            lemma_before_asymmetric(left, right);
        }
    }
}

/// What strings stand for are their characters, each in its place.
pub proof fn law_texts(list: Seq<String>, at: int, text: String, slice: &str)
    requires
        0 <= at < list.len(),
    ensures
        texts(list).len() == list.len(),
        texts(list)[at] == list[at]@,
        optional_text(Some(text)) == Some(text@),
        optional_text(None) is None,
        optional_str(Some(slice)) == Some(slice@),
        optional_str(None) is None,
{
}

} // verus!
