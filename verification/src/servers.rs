//! Which of the configured servers to connect to.

use crate::arguments::contains_name;
use crate::failure::{Failure, FailureView};
use crate::sort::{
    in_order, law_sort_in_order, law_sort_keeps_items, lemma_filter_none, lemma_filter_push,
    lemma_filter_step, lemma_same_distinct, lemma_sort_contains, lemma_sort_mapped, rank, sorted_by,
    stable_sort, strict_order, Ranked,
};
use crate::text::{
    is_before, lemma_before_asymmetric, lemma_before_between, lemma_before_total, optional_str,
    text_before, texts,
};
use vstd::prelude::*;
use vstd::string::*;

verus! {

/// Texts are ordered by their characters.
pub open spec fn text_order() -> spec_fn(Seq<char>, Seq<char>) -> bool {
    |left: Seq<char>, right: Seq<char>| text_before(left, right)
}

impl Ranked for String {
    open spec fn ranks_before(self, other: Self) -> bool {
        text_before(self@, other@)
    }

    fn is_ranked_before(&self, other: &Self) -> (answer: bool) {
        is_before(self.as_str(), other.as_str())
    }
}

/// Sorts texts.
pub(crate) fn sort_texts(list: Vec<String>) -> (sorted: Vec<String>)
    ensures
        texts(sorted@) == sorted_by(texts(list@), text_order()),
{
    let ghost source = list@;
    let sorted: Vec<String> = stable_sort(list);
    proof {
        let view_of = |text: String| text@;
        assert(source.map_values(view_of) =~= texts(source));
        lemma_sort_mapped(source, rank::<String>(), view_of, text_order());
        assert(sorted@.map_values(view_of) =~= texts(sorted@));
    }
    sorted
}

/// The order of texts is strict.
pub proof fn lemma_text_order()
    ensures
        strict_order(text_order()),
{
    assert forall|a: Seq<char>, b: Seq<char>| #[trigger] text_order()(a, b) implies !text_order()(
        b,
        a,
    ) by {
        lemma_before_asymmetric(a, b);
    }
    assert forall|a: Seq<char>, b: Seq<char>, c: Seq<char>|
        #[trigger] text_order()(a, c) implies #[trigger] text_order()(a, b) || text_order()(
        b,
        c,
    ) by {
        lemma_before_between(a, b, c);
    }
}

/// The servers that an optional choice of one asks for: none stands for all.
pub open spec fn wanted_of(server: Option<Seq<char>>) -> Seq<Seq<char>> {
    match server {
        Some(server) => seq![server],
        None => Seq::empty(),
    }
}

/// Lists the server that is asked for, if one is.
pub fn wanted_servers(server: Option<&str>) -> (wanted: Vec<String>)
    ensures
        texts(wanted@) == wanted_of(optional_str(server)),
{
    let mut wanted: Vec<String> = Vec::new();
    if let Some(name) = server {
        wanted.push(name.to_owned());
    }
    assert(texts(wanted@) =~= wanted_of(optional_str(server)));
    wanted
}

/// The first of the wanted servers that is not configured.
pub open spec fn first_unknown(
    wanted: Seq<Seq<char>>,
    configured: Seq<Seq<char>>,
) -> Option<Seq<char>>
    decreases wanted.len(),
{
    if wanted.len() == 0 {
        None
    } else if !configured.contains(wanted[0]) {
        Some(wanted[0])
    } else {
        first_unknown(wanted.drop_first(), configured)
    }
}

/// The servers that are wanted: all, where none is named.
pub open spec fn chosen(wanted: Seq<Seq<char>>) -> spec_fn(Seq<char>) -> bool {
    |name: Seq<char>| wanted.len() == 0 || wanted.contains(name)
}

/// The servers to connect to, in order, or the one that is not known.
pub open spec fn selection(configured: Seq<Seq<char>>, wanted: Seq<Seq<char>>) -> Result<
    Seq<Seq<char>>,
    FailureView,
> {
    match first_unknown(wanted, configured) {
        Some(server) => Err(FailureView::UnknownServer { server }),
        None => Ok(sorted_by(configured.filter(chosen(wanted)), text_order())),
    }
}

/// What the result of a selection stands for.
pub open spec fn selection_view(result: Result<Vec<String>, Failure>) -> Result<
    Seq<Seq<char>>,
    FailureView,
> {
    match result {
        Ok(names) => Ok(texts(names@)),
        Err(failure) => Err(failure@),
    }
}

/// Finds the first of the wanted servers that is not configured.
fn find_unknown(wanted: &Vec<String>, configured: &Vec<String>) -> (unknown: Option<String>)
    ensures
        match unknown {
            Some(name) => first_unknown(texts(wanted@), texts(configured@)) == Some(name@),
            None => first_unknown(texts(wanted@), texts(configured@)) is None,
        },
{
    let ghost names = texts(wanted@);
    let ghost known = texts(configured@);
    let mut i: usize = 0;
    assert(names.skip(0) =~= names);
    while i < wanted.len()
        invariant
            i <= wanted.len(),
            names == texts(wanted@),
            known == texts(configured@),
            first_unknown(names, known) == first_unknown(names.skip(i as int), known),
        decreases wanted.len() - i,
    {
        let ghost rest = names.skip(i as int);
        assert(rest[0] == wanted@[i as int]@);
        assert(rest.drop_first() =~= names.skip(i + 1));
        if !contains_name(configured, wanted[i].as_str()) {
            return Some(wanted[i].clone());
        }
        i += 1;
    }
    None
}

/// Selects the servers to connect to.
pub fn select_servers(configured: &Vec<String>, wanted: &Vec<String>) -> (result: Result<
    Vec<String>,
    Failure,
>)
    ensures
        selection_view(result) == selection(texts(configured@), texts(wanted@)),
{
    let ghost known = texts(configured@);
    let ghost is_chosen = chosen(texts(wanted@));
    if let Some(server) = find_unknown(wanted, configured) {
        return Err(Failure::UnknownServer { server });
    }
    let mut names: Vec<String> = Vec::new();
    let mut i: usize = 0;
    proof {
        lemma_filter_none(known.take(0), is_chosen);
        assert(texts(names@) =~= known.take(0).filter(is_chosen));
    }
    while i < configured.len()
        invariant
            i <= configured.len(),
            known == texts(configured@),
            is_chosen == chosen(texts(wanted@)),
            texts(names@) == known.take(i as int).filter(is_chosen),
        decreases configured.len() - i,
    {
        let ghost earlier = texts(names@);
        proof {
            lemma_filter_step(known, i as int, is_chosen);
        }
        if wanted.len() == 0 || contains_name(wanted, configured[i].as_str()) {
            let name: String = configured[i].clone();
            names.push(name);
            assert(texts(names@) =~= earlier.push(name@));
        }
        i += 1;
    }
    assert(known.take(known.len() as int) =~= known);
    Ok(sort_texts(names))
}

/// A selection fails exactly if some wanted server is not configured, and then names
/// such a server.
pub proof fn law_unknown_server(configured: Seq<Seq<char>>, wanted: Seq<Seq<char>>)
    ensures
        selection(configured, wanted) is Err <==> exists|i: int|
            0 <= i < wanted.len() && !configured.contains(#[trigger] wanted[i]),
        selection(configured, wanted) matches Err(failure) ==> failure is UnknownServer
            && wanted.contains(failure->UnknownServer_server) && !configured.contains(
            failure->UnknownServer_server,
        ),
    decreases wanted.len(),
{
    if wanted.len() > 0 {
        let rest = wanted.drop_first();
        law_unknown_server(configured, rest);
        if !configured.contains(wanted[0]) {
            assert(wanted.contains(wanted[0]));
        } else {
            if exists|i: int| 0 <= i < wanted.len() && !configured.contains(#[trigger] wanted[i]) {
                let i = choose|i: int|
                    0 <= i < wanted.len() && !configured.contains(#[trigger] wanted[i]);
                assert(rest[i - 1] == wanted[i]);
            }
            if exists|i: int| 0 <= i < rest.len() && !configured.contains(#[trigger] rest[i]) {
                let i = choose|i: int|
                    0 <= i < rest.len() && !configured.contains(#[trigger] rest[i]);
                assert(rest[i] == wanted[i + 1]);
                let server = first_unknown(rest, configured)->Some_0;
                let k = choose|k: int| 0 <= k < rest.len() && rest[k] == server;
                assert(wanted[k + 1] == server);
            }
        }
    }
}

/// The selected servers are those that are configured and wanted, in order; where none
/// is named, all that are configured.
pub proof fn law_selection(configured: Seq<Seq<char>>, wanted: Seq<Seq<char>>, name: Seq<char>)
    requires
        selection(configured, wanted) is Ok,
    ensures
        in_order(selection(configured, wanted)->Ok_0, text_order()),
        selection(configured, wanted)->Ok_0.contains(name) <==> configured.contains(name) && (
        wanted.len() == 0 || wanted.contains(name)),
{
    let kept = configured.filter(chosen(wanted));
    lemma_text_order();
    law_sort_in_order(kept, text_order());
    lemma_sort_contains(kept, text_order(), name);
    if kept.contains(name) {
        let i = choose|i: int| 0 <= i < kept.len() && kept[i] == name;
        configured.lemma_filter_pred(chosen(wanted), i);
        configured.lemma_filter_contains_rev(chosen(wanted), name);
    }
    if configured.contains(name) && (wanted.len() == 0 || wanted.contains(name)) {
        let i = choose|i: int| 0 <= i < configured.len() && configured[i] == name;
        configured.lemma_filter_contains(chosen(wanted), i);
    }
}

/// Where no configured name stands twice, each selected name comes before those that
/// stand behind it.
pub proof fn law_selection_ascends(configured: Seq<Seq<char>>, wanted: Seq<Seq<char>>)
    requires
        selection(configured, wanted) is Ok,
        configured.no_duplicates(),
    ensures
        forall|i: int, j: int|
            0 <= i < j < selection(configured, wanted)->Ok_0.len() ==> text_before(
                #[trigger] selection(configured, wanted)->Ok_0[i],
                #[trigger] selection(configured, wanted)->Ok_0[j],
            ),
{
    let kept = configured.filter(chosen(wanted));
    let sorted = sorted_by(kept, text_order());
    lemma_text_order();
    law_sort_in_order(kept, text_order());
    law_sort_keeps_items(kept, text_order());
    lemma_filter_distinct(configured, chosen(wanted));
    lemma_same_distinct(kept, sorted);
    assert forall|i: int, j: int| 0 <= i < j < sorted.len() implies text_before(
        #[trigger] sorted[i],
        #[trigger] sorted[j],
    ) by {
        assert(!text_order()(sorted[j], sorted[i]));
        lemma_before_total(sorted[i], sorted[j]);
    }
}

/// What is kept of a list in which nothing stands twice is such a list.
proof fn lemma_filter_distinct<T>(items: Seq<T>, wanted: spec_fn(T) -> bool)
    requires
        items.no_duplicates(),
    ensures
        items.filter(wanted).no_duplicates(),
    decreases items.len(),
{
    if items.len() == 0 {
        lemma_filter_none(items, wanted);
    } else {
        let front = items.drop_last();
        lemma_filter_distinct(front, wanted);
        lemma_filter_push(front, items.last(), wanted);
        assert(front.push(items.last()) =~= items);
        if front.filter(wanted).contains(items.last()) {
            front.lemma_filter_contains_rev(wanted, items.last());
            let i = choose|i: int| 0 <= i < front.len() && front[i] == items.last();
            assert(items[i] == items[items.len() - 1]);
        }
    }
}

/// The server that a selection does not know is the first of the wanted ones that is not
/// configured.
pub proof fn law_first_unknown(configured: Seq<Seq<char>>, wanted: Seq<Seq<char>>)
    ensures
        match selection(configured, wanted) {
            Err(failure) => failure is UnknownServer && exists|i: int|
                0 <= i < wanted.len() && #[trigger] wanted[i] == failure->UnknownServer_server
                    && !configured.contains(wanted[i]) && forall|j: int|
                    0 <= j < i ==> configured.contains(#[trigger] wanted[j]),
            Ok(_) => forall|i: int|
                0 <= i < wanted.len() ==> configured.contains(#[trigger] wanted[i]),
        },
    decreases wanted.len(),
{
    if wanted.len() > 0 {
        let rest = wanted.drop_first();
        law_first_unknown(configured, rest);
        if configured.contains(wanted[0]) {
            match first_unknown(rest, configured) {
                Some(server) => {
                    let i = choose|i: int|
                        0 <= i < rest.len() && #[trigger] rest[i] == server && !configured.contains(
                            rest[i],
                        ) && forall|j: int| 0 <= j < i ==> configured.contains(#[trigger] rest[j]);
                    assert(wanted[i + 1] == server);
                    assert forall|j: int| 0 <= j < i + 1 implies configured.contains(
                        #[trigger] wanted[j],
                    ) by {
                        if j > 0 {
                            assert(rest[j - 1] == wanted[j]);
                        }
                    }
                },
                None => {
                    assert forall|i: int| 0 <= i < wanted.len() implies configured.contains(
                        #[trigger] wanted[i],
                    ) by {
                        if i > 0 {
                            assert(rest[i - 1] == wanted[i]);
                        }
                    }
                },
            }
        } else {
            assert(wanted[0] == first_unknown(wanted, configured)->Some_0);
        }
    }
}

/// The selected servers are the configured ones that are wanted, each as often as it is
/// configured; where none is wanted by name, all of them. The choice of one server wants
/// that one alone.
pub proof fn law_selected_servers(
    configured: Seq<Seq<char>>,
    wanted: Seq<Seq<char>>,
    server: Seq<char>,
)
    ensures
        selection(configured, wanted) matches Ok(names) ==> names.to_multiset() == if wanted.len()
            == 0 {
            configured.to_multiset()
        } else {
            configured.filter(|name: Seq<char>| wanted.contains(name)).to_multiset()
        },
        wanted_of(Some(server)) == seq![server],
        wanted_of(None).len() == 0,
{
    let kept = configured.filter(chosen(wanted));
    law_sort_keeps_items(kept, text_order());
    if wanted.len() == 0 {
        lemma_filter_all(configured, chosen(wanted));
    } else {
        let test = |name: Seq<char>| wanted.contains(name);
        assert(test =~= chosen(wanted));
    }
}

proof fn lemma_filter_all<T>(items: Seq<T>, wanted: spec_fn(T) -> bool)
    requires
        forall|item: T| #[trigger] wanted(item),
    ensures
        items.filter(wanted) == items,
    decreases items.len(),
{
    if items.len() == 0 {
        lemma_filter_none(items, wanted);
        assert(items.filter(wanted) =~= items);
    } else {
        let front = items.drop_last();
        lemma_filter_all(front, wanted);
        lemma_filter_push(front, items.last(), wanted);
        assert(wanted(items.last()));
        assert(front.push(items.last()) =~= items);
    }
}

/// What the result of a selection stands for is that result.
pub proof fn law_selection_view(names: Vec<String>, failure: Failure)
    ensures
        selection_view(Ok(names)) == Ok::<Seq<Seq<char>>, FailureView>(texts(names@)),
        selection_view(Err(failure)) == Err::<Seq<Seq<char>>, FailureView>(failure@),
{
}

} // verus!
