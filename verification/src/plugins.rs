//! The servers that plugins bring: those of enabled plugins, unless the user defines a
//! server of that name, started in a directory below the plugin's own.

use crate::arguments::contains_name;
use crate::json::{lemma_with_member, lookup, member_views, with_member, Json, JsonView};
use crate::table::keys;
use crate::text::{
    chars_of, decimal, digit, is_before, joined, lemma_before_asymmetric, lemma_before_between,
    lemma_decimal_digits, lemma_decimal_length, optional_text, same_text, text_before, texts,
};
use vstd::prelude::*;
use vstd::string::*;

verus! {

/// A plugin: whether it is enabled, its directory, and the definitions of its servers.
#[derive(Debug)]
pub struct Plugin {
    pub enabled: bool,
    pub root: String,
    pub servers: Vec<(String, Json)>,
}

/// What a `Plugin` stands for.
pub struct PluginView {
    pub enabled: bool,
    pub root: Seq<char>,
    pub servers: Seq<(Seq<char>, JsonView)>,
}

impl View for Plugin {
    type V = PluginView;

    open spec fn view(&self) -> PluginView {
        PluginView {
            enabled: self.enabled,
            root: self.root@,
            servers: member_views(self.servers@),
        }
    }
}

/// The views of plugins.
pub open spec fn plugin_views(plugins: Seq<Plugin>) -> Seq<PluginView> {
    Seq::new(plugins.len(), |i: int| plugins[i]@)
}

/// The text in front of the last `@` and the text behind it.
pub open spec fn id_parts(id: Seq<char>) -> Option<(Seq<char>, Seq<char>)>
    decreases id.len(),
{
    if id.len() == 0 {
        None
    } else if id.last() == '@' {
        Some((id.drop_last(), Seq::empty()))
    } else {
        match id_parts(id.drop_last()) {
            Some((name, marketplace)) => Some((name, marketplace.push(id.last()))),
            None => None,
        }
    }
}

/// Takes a plugin's id apart: its name, and the marketplace that it is from.
pub fn split_plugin_id(id: &str) -> (parts: Option<(String, String)>)
    ensures
        match parts {
            Some((name, marketplace)) => id_parts(id@) == Some((name@, marketplace@)),
            None => id_parts(id@) is None,
        },
{
    let chars: Vec<char> = chars_of(id);
    let mut before: Option<String> = None;
    let mut current: String = String::new();
    let mut i: usize = 0;
    assert(id@.take(0) =~= Seq::empty());
    while i < chars.len()
        invariant
            i <= chars.len(),
            chars@ == id@,
            match before {
                Some(name) => id_parts(id@.take(i as int)) == Some((name@, current@)),
                None => id_parts(id@.take(i as int)) is None && current@ == id@.take(i as int),
            },
            before matches Some(name) ==> name@ + seq!['@'] + current@ == id@.take(i as int),
        decreases chars.len() - i,
    {
        let ghost upto = id@.take(i + 1);
        let ghost earlier = current@;
        assert(upto.drop_last() =~= id@.take(i as int));
        assert(upto.last() == chars@[i as int]);
        if chars[i] == '@' {
            let name: String = match before {
                Some(front) => {
                    let mut name: String = front;
                    name.push('@');
                    name.append(current.as_str());
                    assert(name@ =~= id@.take(i as int));
                    name
                }
                None => current,
            };
            before = Some(name);
            current = String::new();
            assert(current@ =~= Seq::empty());
            assert(name@ + seq!['@'] + current@ =~= upto);
        } else {
            current.push(chars[i]);
            match &before {
                Some(name) => {
                    assert(name@ + seq!['@'] + current@ =~= upto);
                }
                None => {
                    assert(current@ =~= upto);
                }
            }
        }
        i += 1;
    }
    assert(id@.take(id@.len() as int) =~= id@);
    match before {
        Some(name) => Some((name, current)),
        None => None,
    }
}

/// The parts of a version, between its dots.
pub open spec fn version_parts(version: Seq<char>) -> Seq<Seq<char>>
    decreases version.len(),
{
    if version.len() == 0 {
        seq![Seq::empty()]
    } else {
        let front = version_parts(version.drop_last());
        if version.last() == '.' {
            front.push(Seq::empty())
        } else {
            front.update(front.len() - 1, front.last().push(version.last()))
        }
    }
}

/// A part that is a number.
pub open spec fn numeric(part: Seq<char>) -> bool {
    &&& part.len() > 0
    &&& forall|i: int| 0 <= i < part.len() ==> '0' <= #[trigger] part[i] <= '9'
}

/// The number that digits stand for.
pub open spec fn number_of(digits: Seq<char>) -> int
    decreases digits.len(),
{
    if digits.len() == 0 {
        0
    } else {
        number_of(digits.drop_last()) * 10 + (digits.last() as int - 48)
    }
}

/// Numbers are ordered by value, other parts by their characters, and other parts come
/// before numbers, as a release candidate does before its release.
pub open spec fn part_before(left: Seq<char>, right: Seq<char>) -> bool {
    if numeric(left) && numeric(right) {
        number_of(left) < number_of(right)
    } else if numeric(left) {
        false
    } else if numeric(right) {
        true
    } else {
        text_before(left, right)
    }
}

/// The first parts that differ decide; of versions without such, the shorter comes first.
pub open spec fn parts_before(left: Seq<Seq<char>>, right: Seq<Seq<char>>) -> bool
    decreases left.len(),
{
    if right.len() == 0 {
        false
    } else if left.len() == 0 {
        true
    } else if part_before(left[0], right[0]) {
        true
    } else if part_before(right[0], left[0]) {
        false
    } else {
        parts_before(left.drop_first(), right.drop_first())
    }
}

/// The version `left` is older than `right`.
pub open spec fn older(left: Seq<char>, right: Seq<char>) -> bool {
    parts_before(version_parts(left), version_parts(right))
}

/// The latest of versions, and of several that are as late the first.
pub open spec fn latest(versions: Seq<Seq<char>>) -> Option<Seq<char>>
    decreases versions.len(),
{
    if versions.len() == 0 {
        None
    } else {
        match latest(versions.drop_last()) {
            None => Some(versions.last()),
            Some(best) => if older(best, versions.last()) {
                Some(versions.last())
            } else {
                Some(best)
            },
        }
    }
}

/// Takes a version apart.
fn split_version(version: &str) -> (parts: Vec<Vec<char>>)
    ensures
        parts_views(parts@) == version_parts(version@),
{
    let chars: Vec<char> = chars_of(version);
    let mut done: Vec<Vec<char>> = Vec::new();
    let mut part: Vec<char> = Vec::new();
    let mut i: usize = 0;
    proof {
        assert(version@.take(0) =~= Seq::empty());
        assert(parts_views(done@).push(part@) =~= version_parts(version@.take(0)));
    }
    while i < chars.len()
        invariant
            i <= chars.len(),
            chars@ == version@,
            parts_views(done@).push(part@) == version_parts(version@.take(i as int)),
        decreases chars.len() - i,
    {
        let ghost upto = version@.take(i + 1);
        let ghost earlier = parts_views(done@);
        let ghost start = part@;
        assert(upto.drop_last() =~= version@.take(i as int));
        assert(upto.last() == chars@[i as int]);
        if chars[i] == '.' {
            done.push(part);
            part = Vec::new();
            assert(parts_views(done@) =~= earlier.push(start));
            assert(part@ =~= Seq::empty());
        } else {
            part.push(chars[i]);
            assert(earlier.push(part@) =~= earlier.push(start).update(
                earlier.len() as int,
                start.push(chars@[i as int]),
            ));
        }
        i += 1;
    }
    let ghost earlier = parts_views(done@);
    let ghost last = part@;
    done.push(part);
    assert(parts_views(done@) =~= earlier.push(last));
    assert(version@.take(version@.len() as int) =~= version@);
    done
}

/// The characters of parts.
spec fn parts_views(parts: Seq<Vec<char>>) -> Seq<Seq<char>> {
    Seq::new(parts.len(), |i: int| parts[i]@)
}

/// Whether a part is a number.
fn is_numeric(part: &Vec<char>) -> (answer: bool)
    ensures
        answer == numeric(part@),
{
    let mut i: usize = 0;
    while i < part.len()
        invariant
            i <= part.len(),
            forall|j: int| 0 <= j < i ==> '0' <= #[trigger] part@[j] <= '9',
        decreases part.len() - i,
    {
        if part[i] < '0' || '9' < part[i] {
            return false;
        }
        i += 1;
    }
    part.len() > 0
}

/// The part of a number that stands in front of its last `behind` digits.
spec fn lead(digits: Seq<char>, behind: int) -> Seq<char> {
    if behind < digits.len() {
        digits.take(digits.len() - behind)
    } else {
        Seq::empty()
    }
}

/// The digit in front of the last `behind` ones, zero in front of the first.
fn digit_at(digits: &Vec<char>, behind: usize) -> (digit: u32)
    requires
        numeric(digits@),
    ensures
        digit <= 9,
        number_of(lead(digits@, behind as int)) == number_of(lead(digits@, behind + 1)) * 10
            + digit,
{
    if behind < digits.len() {
        let at: usize = digits.len() - 1 - behind;
        proof {
            assert('0' <= digits@[at as int] <= '9');
            assert(lead(digits@, behind as int).drop_last() =~= lead(digits@, behind + 1));
            assert(lead(digits@, behind as int).last() == digits@[at as int]);
        }
        digits[at] as u32 - 48
    } else {
        0
    }
}

/// Whether one number is below another.
fn is_number_below(left: &Vec<char>, right: &Vec<char>) -> (answer: bool)
    requires
        numeric(left@),
        numeric(right@),
    ensures
        answer == (number_of(left@) < number_of(right@)),
{
    let mut behind: usize = if left.len() < right.len() {
        right.len()
    } else {
        left.len()
    };
    let mut below: bool = false;
    let mut above: bool = false;
    while behind > 0
        invariant
            numeric(left@),
            numeric(right@),
            below == (number_of(lead(left@, behind as int)) < number_of(
                lead(right@, behind as int),
            )),
            above == (number_of(lead(right@, behind as int)) < number_of(
                lead(left@, behind as int),
            )),
        decreases behind,
    {
        behind -= 1;
        let one: u32 = digit_at(left, behind);
        let other: u32 = digit_at(right, behind);
        if !below && !above {
            below = one < other;
            above = other < one;
        }
    }
    assert(lead(left@, 0) =~= left@);
    assert(lead(right@, 0) =~= right@);
    below
}

/// The text of characters.
fn text_of(chars: &Vec<char>) -> (text: String)
    ensures
        text@ == chars@,
{
    let mut text: String = String::new();
    let mut i: usize = 0;
    assert(text@ =~= chars@.take(0));
    while i < chars.len()
        invariant
            i <= chars.len(),
            text@ == chars@.take(i as int),
        decreases chars.len() - i,
    {
        text.push(chars[i]);
        assert(text@ =~= chars@.take(i + 1));
        i += 1;
    }
    assert(chars@.take(chars@.len() as int) =~= chars@);
    text
}

/// Whether one part comes before another.
fn is_part_before(left: &Vec<char>, right: &Vec<char>) -> (answer: bool)
    ensures
        answer == part_before(left@, right@),
{
    let left_number: bool = is_numeric(left);
    let right_number: bool = is_numeric(right);
    if left_number && right_number {
        is_number_below(left, right)
    } else if left_number || right_number {
        right_number
    } else {
        is_before(text_of(left).as_str(), text_of(right).as_str())
    }
}

/// Whether one version is older than another.
fn is_older(left: &str, right: &str) -> (answer: bool)
    ensures
        answer == older(left@, right@),
{
    let ours: Vec<Vec<char>> = split_version(left);
    let theirs: Vec<Vec<char>> = split_version(right);
    let ghost one = parts_views(ours@);
    let ghost other = parts_views(theirs@);
    let mut i: usize = 0;
    assert(one.skip(0) =~= one);
    assert(other.skip(0) =~= other);
    while i < ours.len() && i < theirs.len()
        invariant
            i <= ours.len(),
            i <= theirs.len(),
            one == parts_views(ours@),
            other == parts_views(theirs@),
            older(left@, right@) == parts_before(one.skip(i as int), other.skip(i as int)),
        decreases ours.len() - i,
    {
        proof {
            assert(one.skip(i as int)[0] == ours@[i as int]@);
            assert(other.skip(i as int)[0] == theirs@[i as int]@);
            assert(one.skip(i as int).drop_first() =~= one.skip(i + 1));
            assert(other.skip(i as int).drop_first() =~= other.skip(i + 1));
        }
        if is_part_before(&ours[i], &theirs[i]) {
            return true;
        }
        if is_part_before(&theirs[i], &ours[i]) {
            return false;
        }
        i += 1;
    }
    i < theirs.len()
}

/// Picks the latest of the installed versions.
pub fn latest_version(versions: &Vec<String>) -> (version: Option<String>)
    ensures
        optional_text(version) == latest(texts(versions@)),
{
    let ghost views = texts(versions@);
    let mut best: Option<usize> = None;
    let mut i: usize = 0;
    while i < versions.len()
        invariant
            i <= versions.len(),
            views == texts(versions@),
            match best {
                Some(at) => at < i && latest(views.take(i as int)) == Some(versions@[at as int]@),
                None => latest(views.take(i as int)) is None,
            },
        decreases versions.len() - i,
    {
        let ghost upto = views.take(i + 1);
        assert(upto.drop_last() =~= views.take(i as int));
        assert(upto.last() == versions@[i as int]@);
        best = match best {
            None => Some(i),
            Some(at) => {
                if is_older(versions[at].as_str(), versions[i].as_str()) {
                    Some(i)
                } else {
                    Some(at)
                }
            }
        };
        i += 1;
    }
    assert(views.take(views.len() as int) =~= views);
    match best {
        Some(at) => Some(versions[at].clone()),
        None => None,
    }
}

proof fn lemma_parts_asymmetric(left: Seq<Seq<char>>, right: Seq<Seq<char>>)
    requires
        parts_before(left, right),
    ensures
        !parts_before(right, left),
    decreases left.len(),
{
    if left.len() > 0 {
        if !part_before(left[0], right[0]) {
            lemma_parts_asymmetric(left.drop_first(), right.drop_first());
        } else {
            lemma_part_asymmetric(left[0], right[0]);
        }
    }
}

proof fn lemma_part_asymmetric(left: Seq<char>, right: Seq<char>)
    requires
        part_before(left, right),
    ensures
        !part_before(right, left),
{
    if !numeric(left) && !numeric(right) {
        lemma_before_asymmetric(left, right);
    }
}

proof fn lemma_part_between(first: Seq<char>, any: Seq<char>, last: Seq<char>)
    requires
        part_before(first, last),
    ensures
        part_before(first, any) || part_before(any, last),
{
    if !numeric(first) && !numeric(any) && !numeric(last) {
        lemma_before_between(first, any, last);
    }
}

proof fn lemma_parts_between(
    first: Seq<Seq<char>>,
    any: Seq<Seq<char>>,
    last: Seq<Seq<char>>,
)
    requires
        parts_before(first, last),
    ensures
        parts_before(first, any) || parts_before(any, last),
    decreases first.len(),
{
    if first.len() > 0 && any.len() > 0 {
        let (a, b, c) = (first[0], any[0], last[0]);
        if part_before(a, c) {
            lemma_part_between(a, b, c);
            if part_before(b, a) {
                lemma_part_asymmetric(b, a);
            }
            if part_before(c, b) {
                lemma_part_asymmetric(c, b);
            }
        } else {
            if part_before(b, a) {
                lemma_part_between(b, c, a);
            }
            if part_before(c, b) {
                lemma_part_between(c, a, b);
            }
            if part_before(a, b) {
                lemma_part_asymmetric(a, b);
            }
            if part_before(b, c) {
                lemma_part_asymmetric(b, c);
            }
            lemma_parts_between(first.drop_first(), any.drop_first(), last.drop_first());
        }
    }
}

/// The latest version is one of the versions, there is one wherever there are versions,
/// and it is not older than any of them.
pub proof fn law_latest_version(versions: Seq<Seq<char>>)
    ensures
        latest(versions) is Some <==> versions.len() > 0,
        latest(versions) matches Some(best) ==> versions.contains(best) && forall|i: int|
            0 <= i < versions.len() ==> !older(best, #[trigger] versions[i]),
    decreases versions.len(),
{
    if versions.len() > 0 {
        let front = versions.drop_last();
        let next = versions.last();
        law_latest_version(front);
        let best = latest(versions)->Some_0;
        if latest(front) is Some {
            let before = latest(front)->Some_0;
            if best == before {
                let k = choose|k: int| 0 <= k < front.len() && front[k] == before;
                assert(versions[k] == before);
            }
        }
        if best == next {
            assert(versions[versions.len() - 1] == best);
        }
        assert forall|i: int| 0 <= i < versions.len() implies !older(best, #[trigger] versions[i]) by {
            if older(best, versions[i]) {
                lemma_parts_asymmetric(version_parts(best), version_parts(versions[i]));
                if latest(front) is Some {
                    let before = latest(front)->Some_0;
                    if i < front.len() {
                        assert(front[i] == versions[i]);
                        assert(!older(before, front[i]));
                    }
                    lemma_parts_between(
                        version_parts(best),
                        version_parts(before),
                        version_parts(versions[i]),
                    );
                    if older(before, best) {
                        lemma_parts_asymmetric(version_parts(before), version_parts(best));
                    }
                }
            }
        }
    }
}

/// Where a plugin's manifest says that its servers are defined.
pub fn servers_file(manifest: &Json) -> (path: Option<String>)
    ensures
        optional_text(path) == manifest@.member_text("mcpServers"@),
{
    manifest.member_text("mcpServers")
}

/// The definitions in a plugin's file of servers.
pub open spec fn definitions_of(file: JsonView) -> Seq<(Seq<char>, JsonView)> {
    match file.member("mcpServers"@) {
        Some(JsonView::Object(servers)) => servers,
        _ => Seq::empty(),
    }
}

/// Reads the definitions in a plugin's file of servers.
pub fn server_definitions(file: &Json) -> (definitions: Vec<(String, Json)>)
    ensures
        member_views(definitions@) == definitions_of(file@),
{
    let mut definitions: Vec<(String, Json)> = Vec::new();
    assert(member_views(definitions@) =~= Seq::empty());
    if let Some(servers) = file.member("mcpServers") {
        if let Some(members) = servers.members() {
            let ghost views = member_views(members@);
            let mut i: usize = 0;
            assert(views.take(0) =~= Seq::empty());
            while i < members.len()
                invariant
                    i <= members.len(),
                    views == member_views(members@),
                    member_views(definitions@) == views.take(i as int),
                decreases members.len() - i,
            {
                let ghost earlier = member_views(definitions@);
                let definition: (String, Json) = (members[i].0.clone(), members[i].1.clone());
                definitions.push(definition);
                assert(member_views(definitions@) =~= earlier.push(views[i as int]));
                assert(views.take(i + 1) =~= earlier.push(views[i as int]));
                i += 1;
            }
            assert(views.take(views.len() as int) =~= views);
        }
    }
    definitions
}

/// A path seen from a directory: an absolute path stays as it is.
pub open spec fn joined_path(root: Seq<char>, path: Seq<char>) -> Seq<char> {
    if path.len() > 0 && path[0] == '/' {
        path
    } else if root.len() == 0 || root.last() == '/' {
        root + path
    } else {
        root.push('/') + path
    }
}

/// Resolves a path from a directory.
pub fn resolve_path(root: &str, path: &str) -> (resolved: String)
    ensures
        resolved@ == joined_path(root@, path@),
{
    let path_chars: Vec<char> = chars_of(path);
    if path_chars.len() > 0 && path_chars[0] == '/' {
        return path.to_owned();
    }
    let root_chars: Vec<char> = chars_of(root);
    let mut resolved: String = root.to_owned();
    if root_chars.len() > 0 && root_chars[root_chars.len() - 1] != '/' {
        resolved.push('/');
    }
    resolved.append(path);
    resolved
}

/// A server's definition with its working directory seen from the plugin's directory.
pub open spec fn located(definition: JsonView, root: Seq<char>) -> JsonView {
    match definition.member_text("cwd"@) {
        Some(cwd) => definition.with("cwd"@, JsonView::Text(joined_path(root, cwd))),
        None => definition,
    }
}

/// Resolves the working directory in a server's definition.
pub fn locate_server(definition: &Json, root: &str) -> (result: Json)
    ensures
        result@ == located(definition@, root@),
{
    match definition.member_text("cwd") {
        Some(cwd) => definition.clone().with("cwd", Json::Text(resolve_path(root, cwd.as_str()))),
        None => definition.clone(),
    }
}

/// The servers of a plugin, located; none, where it is not enabled.
pub open spec fn servers_of(plugin: PluginView) -> Seq<(Seq<char>, JsonView)> {
    if plugin.enabled {
        Seq::new(
            plugin.servers.len(),
            |i: int| (plugin.servers[i].0, located(plugin.servers[i].1, plugin.root)),
        )
    } else {
        Seq::empty()
    }
}

/// The servers of all plugins, one plugin after another.
pub open spec fn offered(plugins: Seq<PluginView>) -> Seq<(Seq<char>, JsonView)>
    decreases plugins.len(),
{
    if plugins.len() == 0 {
        Seq::empty()
    } else {
        offered(plugins.drop_last()) + servers_of(plugins.last())
    }
}

/// The servers whose names are not taken; of several with one name, the first.
pub open spec fn admitted(
    taken: Seq<Seq<char>>,
    servers: Seq<(Seq<char>, JsonView)>,
) -> Seq<(Seq<char>, JsonView)>
    decreases servers.len(),
{
    if servers.len() == 0 {
        Seq::empty()
    } else {
        let front = admitted(taken, servers.drop_last());
        let name = servers.last().0;
        if taken.contains(name) || keys(front).contains(name) {
            front
        } else {
            front.push(servers.last())
        }
    }
}

/// Whether a name is among those of the servers.
fn has_server(servers: &Vec<(String, Json)>, name: &str) -> (answer: bool)
    ensures
        answer == keys(member_views(servers@)).contains(name@),
{
    let mut i: usize = 0;
    while i < servers.len()
        invariant
            i <= servers.len(),
            forall|j: int| 0 <= j < i ==> #[trigger] keys(member_views(servers@))[j] != name@,
        decreases servers.len() - i,
    {
        if same_text(servers[i].0.as_str(), name) {
            assert(keys(member_views(servers@))[i as int] == name@);
            return true;
        }
        i += 1;
    }
    false
}

/// Appends the servers of a plugin.
fn append_servers(plugin: &Plugin, servers: &mut Vec<(String, Json)>)
    ensures
        member_views(final(servers)@) == member_views(old(servers)@) + servers_of(plugin@),
{
    let ghost start = member_views(servers@);
    let ghost own = servers_of(plugin@);
    if !plugin.enabled {
        assert(start + own =~= start);
        return;
    }
    let mut i: usize = 0;
    assert(start + own.take(0) =~= start);
    while i < plugin.servers.len()
        invariant
            plugin.enabled,
            i <= plugin.servers.len(),
            own == servers_of(plugin@),
            start == member_views(old(servers)@),
            member_views(servers@) == start + own.take(i as int),
        decreases plugin.servers.len() - i,
    {
        let definition: Json = locate_server(&plugin.servers[i].1, plugin.root.as_str());
        let ghost earlier = member_views(servers@);
        servers.push((plugin.servers[i].0.clone(), definition));
        assert(member_views(servers@) =~= earlier.push(own[i as int]));
        assert(start + own.take(i + 1) =~= earlier.push(own[i as int]));
        i += 1;
    }
    assert(own.take(own.len() as int) =~= own);
}

/// Lists the servers of all plugins.
fn offered_servers(plugins: &Vec<Plugin>) -> (servers: Vec<(String, Json)>)
    ensures
        member_views(servers@) == offered(plugin_views(plugins@)),
{
    let ghost views = plugin_views(plugins@);
    let mut servers: Vec<(String, Json)> = Vec::new();
    let mut i: usize = 0;
    assert(member_views(servers@) =~= offered(views.take(0)));
    while i < plugins.len()
        invariant
            i <= plugins.len(),
            views == plugin_views(plugins@),
            member_views(servers@) == offered(views.take(i as int)),
        decreases plugins.len() - i,
    {
        let ghost upto = views.take(i + 1);
        assert(upto.drop_last() =~= views.take(i as int));
        assert(upto.last() == plugins@[i as int]@);
        append_servers(&plugins[i], &mut servers);
        i += 1;
    }
    assert(views.take(views.len() as int) =~= views);
    servers
}

/// Lists the servers that plugins add to those that the user defines.
pub fn plugin_servers(user_names: &Vec<String>, plugins: &Vec<Plugin>) -> (servers: Vec<
    (String, Json),
>)
    ensures
        member_views(servers@) == admitted(texts(user_names@), offered(plugin_views(plugins@))),
{
    let candidates: Vec<(String, Json)> = offered_servers(plugins);
    let ghost source = candidates@;
    let ghost views = member_views(candidates@);
    let ghost taken = texts(user_names@);
    let mut servers: Vec<(String, Json)> = Vec::new();
    assert(member_views(servers@) =~= admitted(taken, views.take(0)));
    for candidate in it: candidates
        invariant
            it.seq() == source,
            views == member_views(source),
            taken == texts(user_names@),
            member_views(servers@) == admitted(taken, views.take(it.index() as int)),
    {
        let ghost upto = views.take(it.index() + 1);
        let ghost earlier = member_views(servers@);
        assert(upto.drop_last() =~= views.take(it.index() as int));
        assert(upto.last() == views[it.index() as int]);
        if !contains_name(user_names, candidate.0.as_str()) && !has_server(
            &servers,
            candidate.0.as_str(),
        ) {
            servers.push(candidate);
            assert(member_views(servers@) =~= earlier.push(upto.last()));
        }
    }
    assert(views.take(views.len() as int) =~= views);
    servers
}

/// A server that the user defines shadows those of that name from plugins, no name is
/// added twice, and nothing is added that no plugin offers.
pub proof fn law_user_servers_shadow(taken: Seq<Seq<char>>, servers: Seq<(Seq<char>, JsonView)>)
    ensures
        forall|i: int|
            0 <= i < admitted(taken, servers).len() ==> !taken.contains(
                (#[trigger] admitted(taken, servers)[i]).0,
            ) && servers.contains(admitted(taken, servers)[i]),
        keys(admitted(taken, servers)).no_duplicates(),
    decreases servers.len(),
{
    if servers.len() > 0 {
        let before = servers.drop_last();
        let front = admitted(taken, before);
        let all = admitted(taken, servers);
        law_user_servers_shadow(taken, before);
        assert forall|i: int| 0 <= i < all.len() implies !taken.contains((#[trigger] all[i]).0)
            && servers.contains(all[i]) by {
            if i < front.len() {
                assert(all[i] == front[i]);
                let k = choose|k: int| 0 <= k < before.len() && before[k] == front[i];
                assert(servers[k] == all[i]);
            } else {
                assert(servers[servers.len() - 1] == all[i]);
            }
        }
        if all.len() > front.len() {
            assert(keys(all) =~= keys(front).push(servers.last().0));
            assert forall|i: int, j: int| 0 <= i < j < all.len() implies keys(all)[i]
                != keys(all)[j] by {
                assert(keys(all)[i] == keys(front)[i]);
                if j < front.len() {
                    assert(keys(all)[j] == keys(front)[j]);
                }
            }
        }
    }
}

/// Every server that an enabled plugin offers is there, under its name, unless the user
/// defines a server of that name.
pub proof fn law_plugin_servers_listed(
    taken: Seq<Seq<char>>,
    plugins: Seq<PluginView>,
    plugin: int,
    server: int,
)
    requires
        0 <= plugin < plugins.len(),
        plugins[plugin].enabled,
        0 <= server < plugins[plugin].servers.len(),
        !taken.contains(plugins[plugin].servers[server].0),
    ensures
        keys(admitted(taken, offered(plugins))).contains(plugins[plugin].servers[server].0),
{
    let name = plugins[plugin].servers[server].0;
    lemma_offered(plugins, plugin, server);
    let all = offered(plugins);
    let at = choose|at: int| 0 <= at < all.len() && (#[trigger] all[at]).0 == name;
    lemma_admitted(taken, all, at);
}

proof fn lemma_offered(plugins: Seq<PluginView>, plugin: int, server: int)
    requires
        0 <= plugin < plugins.len(),
        plugins[plugin].enabled,
        0 <= server < plugins[plugin].servers.len(),
    ensures
        exists|at: int|
            0 <= at < offered(plugins).len() && (#[trigger] offered(plugins)[at]).0
                == plugins[plugin].servers[server].0,
    decreases plugins.len(),
{
    let front = plugins.drop_last();
    let all = offered(plugins);
    if plugin < front.len() {
        lemma_offered(front, plugin, server);
        let at = choose|at: int|
            0 <= at < offered(front).len() && (#[trigger] offered(front)[at]).0
                == plugins[plugin].servers[server].0;
        assert(all[at] == offered(front)[at]);
    } else {
        assert(all[offered(front).len() + server].0 == plugins[plugin].servers[server].0);
    }
}

proof fn lemma_admitted(taken: Seq<Seq<char>>, servers: Seq<(Seq<char>, JsonView)>, at: int)
    requires
        0 <= at < servers.len(),
        !taken.contains(servers[at].0),
    ensures
        keys(admitted(taken, servers)).contains(servers[at].0),
    decreases servers.len(),
{
    let before = servers.drop_last();
    let front = admitted(taken, before);
    let all = admitted(taken, servers);
    let name = servers[at].0;
    if at < before.len() {
        lemma_admitted(taken, before, at);
        let k = choose|k: int| 0 <= k < front.len() && keys(front)[k] == name;
        assert(keys(all)[k] == name);
    } else if keys(front).contains(name) {
        assert(all == front);
    } else {
        assert(keys(all)[all.len() - 1] == name);
    }
}

/// A relative working directory is seen from the plugin's directory, an absolute one
/// stays, and nothing else of the definition changes.
pub proof fn law_located(definition: JsonView, root: Seq<char>, cwd: Seq<char>)
    requires
        definition.member_text("cwd"@) == Some(cwd),
    ensures
        located(definition, root).member_text("cwd"@) == Some(joined_path(root, cwd)),
        forall|name: Seq<char>|
            name != "cwd"@ ==> #[trigger] located(definition, root).member(name)
                == definition.member(name),
{
    let members = definition->Object_0;
    lemma_with_member(members, "cwd"@, JsonView::Text(joined_path(root, cwd)));
    assert forall|name: Seq<char>| name != "cwd"@ implies #[trigger] located(
        definition,
        root,
    ).member(name) == definition.member(name) by {
        assert(lookup(
            with_member(members, "cwd"@, JsonView::Text(joined_path(root, cwd))),
            name,
        ) == lookup(members, name));
    }
}

/// A plugin's id is taken apart at its last `@`, and not at all where it has none.
pub proof fn law_plugin_id(id: Seq<char>, name: Seq<char>, marketplace: Seq<char>)
    requires
        !marketplace.contains('@'),
    ensures
        id_parts(name.push('@') + marketplace) == Some((name, marketplace)),
        !id.contains('@') ==> id_parts(id) is None,
{
    lemma_id_parts(name, marketplace);
    if !id.contains('@') {
        lemma_id_without_mark(id);
    }
}

proof fn lemma_id_parts(name: Seq<char>, marketplace: Seq<char>)
    requires
        !marketplace.contains('@'),
    ensures
        id_parts(name.push('@') + marketplace) == Some((name, marketplace)),
    decreases marketplace.len(),
{
    let id = name.push('@') + marketplace;
    if marketplace.len() == 0 {
        assert(id =~= name.push('@'));
        assert(id.drop_last() =~= name);
        assert(marketplace =~= Seq::empty());
    } else {
        let front = marketplace.drop_last();
        assert(marketplace.last() != '@') by {
            assert(marketplace[marketplace.len() - 1] == marketplace.last());
        }
        assert(!front.contains('@')) by {
            if front.contains('@') {
                let i = choose|i: int| 0 <= i < front.len() && front[i] == '@';
                assert(marketplace[i] == '@');
            }
        }
        lemma_id_parts(name, front);
        assert(id.drop_last() =~= name.push('@') + front);
        assert(front.push(marketplace.last()) =~= marketplace);
    }
}

proof fn lemma_id_without_mark(id: Seq<char>)
    requires
        !id.contains('@'),
    ensures
        id_parts(id) is None,
    decreases id.len(),
{
    if id.len() > 0 {
        let front = id.drop_last();
        assert(id[id.len() - 1] == id.last());
        assert(!front.contains('@')) by {
            if front.contains('@') {
                let i = choose|i: int| 0 <= i < front.len() && front[i] == '@';
                assert(id[i] == '@');
            }
        }
        lemma_id_without_mark(front);
    }
}

/// The definitions of a file are the members of the object under `mcpServers`, as they are;
/// without such an object there are none.
pub proof fn law_definitions(members: Seq<(Seq<char>, JsonView)>, other: JsonView)
    ensures
        definitions_of(JsonView::Object(members)) == match lookup(members, "mcpServers"@) {
            Some(JsonView::Object(servers)) => servers,
            _ => Seq::empty(),
        },
        other !is Object ==> definitions_of(other).len() == 0,
{
}

/// A path that starts with a slash stays; any other goes behind the directory, with one
/// slash between them.
pub proof fn law_paths(root: Seq<char>, path: Seq<char>)
    ensures
        joined_path(root, seq!['/'] + path) == seq!['/'] + path,
        path.len() > 0 && path[0] != '/' ==> joined_path(root.push('/'), path) == root.push('/')
            + path,
        path.len() > 0 && path[0] != '/' && root.len() > 0 && root.last() != '/' ==> joined_path(
            root,
            path,
        ) == root + seq!['/'] + path,
        path.len() > 0 && path[0] != '/' ==> joined_path(Seq::empty(), path) == path,
        root.len() > 0 && root.last() != '/' ==> joined_path(root, Seq::empty()) == root.push('/'),
{
    assert((seq!['/'] + path)[0] == '/');
    assert(Seq::<char>::empty() + path =~= path);
    assert(root.push('/') + path =~= root + seq!['/'] + path);
    assert(root.push('/') + Seq::<char>::empty() =~= root.push('/'));
}

/// A definition without a working directory stays as it is.
pub proof fn law_located_without_directory(definition: JsonView, root: Seq<char>)
    requires
        definition.member_text("cwd"@) is None,
    ensures
        located(definition, root) == definition,
{
}

/// Plugins offer their servers one plugin after another, located from their directories; a
/// plugin that is not enabled offers none.
pub proof fn law_offered(plugins: Seq<PluginView>, plugin: PluginView)
    ensures
        offered(Seq::empty()).len() == 0,
        plugin.enabled ==> offered(plugins.push(plugin)) == offered(plugins)
            + plugin.servers.map_values(
            |server: (Seq<char>, JsonView)| (server.0, located(server.1, plugin.root)),
        ),
        !plugin.enabled ==> offered(plugins.push(plugin)) == offered(plugins),
{
    assert(plugins.push(plugin).drop_last() =~= plugins);
    if plugin.enabled {
        assert(servers_of(plugin) =~= plugin.servers.map_values(
            |server: (Seq<char>, JsonView)| (server.0, located(server.1, plugin.root)),
        ));
    } else {
        assert(offered(plugins) + servers_of(plugin) =~= offered(plugins));
    }
}

/// One more server is added, behind the others and as it is, exactly if the user defines none
/// of its name and none of its name was offered before it.
pub proof fn law_first_server_is_taken(
    taken: Seq<Seq<char>>,
    servers: Seq<(Seq<char>, JsonView)>,
    server: (Seq<char>, JsonView),
)
    ensures
        admitted(taken, Seq::empty()).len() == 0,
        admitted(taken, servers.push(server)) == if taken.contains(server.0) || exists|i: int|
            0 <= i < servers.len() && (#[trigger] servers[i]).0 == server.0 {
            admitted(taken, servers)
        } else {
            admitted(taken, servers).push(server)
        },
{
    assert(servers.push(server).drop_last() =~= servers);
    let front = admitted(taken, servers);
    law_user_servers_shadow(taken, servers);
    if !taken.contains(server.0) {
        if exists|i: int| 0 <= i < servers.len() && (#[trigger] servers[i]).0 == server.0 {
            let i = choose|i: int| 0 <= i < servers.len() && (#[trigger] servers[i]).0 == server.0;
            lemma_admitted(taken, servers, i);
        }
        if keys(front).contains(server.0) {
            let k = choose|k: int| 0 <= k < front.len() && keys(front)[k] == server.0;
            assert(front[k].0 == server.0);
            assert(servers.contains(front[k]));
            let i = choose|i: int| 0 <= i < servers.len() && servers[i] == front[k];
            assert(servers[i].0 == server.0);
        }
    }
}

/// The parts of a version have no dots, and with dots between them they are the version.
pub proof fn law_version_parts(version: Seq<char>)
    ensures
        version_parts(version).len() > 0,
        joined(version_parts(version), seq!['.']) == version,
        forall|i: int|
            0 <= i < version_parts(version).len() ==> !(#[trigger] version_parts(
                version,
            )[i]).contains('.'),
    decreases version.len(),
{
    let parts = version_parts(version);
    if version.len() == 0 {
        assert(joined(parts, seq!['.']) =~= version);
    } else {
        let front = version_parts(version.drop_last());
        let last = version.last();
        law_version_parts(version.drop_last());
        assert(version.drop_last().push(last) =~= version);
        if last == '.' {
            assert(parts.drop_last() =~= front);
            assert(joined(parts, seq!['.']) =~= version);
        } else {
            assert(parts.drop_last() =~= front.drop_last());
            assert(parts.last() == front.last().push(last));
            assert(joined(parts, seq!['.']) =~= joined(front, seq!['.']).push(last));
        }
        assert forall|i: int| 0 <= i < parts.len() implies !(#[trigger] parts[i]).contains('.') by {
            if parts[i].contains('.') {
                let k = choose|k: int| 0 <= k < parts[i].len() && parts[i][k] == '.';
                if i < front.len() {
                    assert(!front[i].contains('.'));
                    if k < front[i].len() {
                        assert(front[i][k] == '.');
                    }
                }
            }
        }
    }
}

/// A number in decimal is a part that is a number, of that value, whatever zeros stand in
/// front of it; and digits are read from the left.
pub proof fn law_numbers_are_read(number: nat, digits: Seq<char>)
    ensures
        numeric(decimal(number)),
        number_of(decimal(number)) == number,
        number_of(seq!['0'] + digits) == number_of(digits),
        number_of(Seq::empty()) == 0,
    decreases number,
{
    lemma_decimal_digits(number);
    lemma_decimal_length(number);
    lemma_leading_zero(digits);
    if number < 10 {
        assert(digit(number) as int == 48 + number);
        assert(decimal(number).drop_last() =~= Seq::empty());
        assert(decimal(number).last() == digit(number));
        reveal_with_fuel(number_of, 2);
    } else {
        law_numbers_are_read(number / 10, digits);
        assert(decimal(number).drop_last() =~= decimal(number / 10));
        assert(digit(number % 10) as int == 48 + number % 10);
    }
}

proof fn lemma_leading_zero(digits: Seq<char>)
    ensures
        number_of(seq!['0'] + digits) == number_of(digits),
    decreases digits.len(),
{
    let longer = seq!['0'] + digits;
    if digits.len() == 0 {
        assert(longer =~= seq!['0']);
        assert(longer.drop_last() =~= Seq::empty());
        reveal_with_fuel(number_of, 2);
    } else {
        lemma_leading_zero(digits.drop_last());
        assert(longer.drop_last() =~= seq!['0'] + digits.drop_last());
    }
}

/// Between parts, the value decides for two numbers and the order of texts for two others,
/// and a number comes behind any other. Between versions the first parts that differ decide,
/// and of versions that agree as far as the shorter goes, the shorter comes first.
pub proof fn law_version_order(
    common: Seq<Seq<char>>,
    one: Seq<char>,
    other: Seq<char>,
    left: Seq<Seq<char>>,
    right: Seq<Seq<char>>,
)
    ensures
        numeric(one) && numeric(other) ==> part_before(one, other) == (number_of(one) < number_of(
            other,
        )),
        !numeric(one) && !numeric(other) ==> part_before(one, other) == text_before(one, other),
        !numeric(one) && numeric(other) ==> part_before(one, other) && !part_before(other, one),
        part_before(one, other) ==> parts_before(
            common.push(one) + left,
            common.push(other) + right,
        ),
        parts_before(common, common.push(one) + left),
        !parts_before(common.push(one) + left, common),
        older(one, other) == parts_before(version_parts(one), version_parts(other)),
    decreases common.len(),
{
    let a = common.push(one) + left;
    let b = common.push(other) + right;
    if common.len() == 0 {
        assert(a[0] == one);
        assert(b[0] == other);
    } else {
        let rest = common.drop_first();
        law_version_order(rest, one, other, left, right);
        assert(a[0] == common[0] && b[0] == common[0]);
        assert(a.drop_first() =~= rest.push(one) + left);
        assert(b.drop_first() =~= rest.push(other) + right);
        assert(!part_before(common[0], common[0])) by {
            if part_before(common[0], common[0]) {
                lemma_part_asymmetric(common[0], common[0]);
            }
        }
    }
}

/// What a plugin stands for are its fields, each its own, and what a list of plugins stands
/// for are the plugins, each in its place.
pub proof fn law_plugin_view(plugin: Plugin, plugins: Seq<Plugin>, at: int)
    ensures
        plugin_views(plugins).len() == plugins.len(),
        0 <= at < plugins.len() ==> plugin_views(plugins)[at] == plugins[at]@,
        plugin@.enabled == plugin.enabled,
        plugin@.root == plugin.root@,
        plugin@.servers == member_views(plugin.servers@),
{
}

} // verus!
