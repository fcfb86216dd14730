//! Choices that the configuration leaves open, and what stands in for them.

use crate::text::optional_text;
use vstd::prelude::*;
use vstd::string::*;

verus! {

/// The base address of the service: the configured one, or the public one.
pub open spec fn base_url(configured: Option<Seq<char>>) -> Seq<char> {
    match configured {
        Some(url) => url,
        None => "https://chatgpt.com/backend-api/"@,
    }
}

/// Picks the base address of the service.
pub fn chatgpt_base_url(configured: Option<String>) -> (url: String)
    ensures
        url@ == base_url(optional_text(configured)),
{
    match configured {
        Some(url) => url,
        None => "https://chatgpt.com/backend-api/".to_owned(),
    }
}

/// A feature in the configuration: switched on or off, or with settings of its own.
#[derive(Debug)]
pub enum FeatureSetting {
    Enabled(bool),
    Path(Option<String>),
}

/// The path that a feature sets: one that is only switched sets none.
pub open spec fn path_override(setting: Option<FeatureSetting>) -> Option<Seq<char>> {
    match setting {
        Some(FeatureSetting::Path(path)) => optional_text(path),
        _ => None,
    }
}

/// Picks the path under which apps are reached.
pub fn apps_mcp_path_override(setting: Option<FeatureSetting>) -> (path: Option<String>)
    ensures
        optional_text(path) == path_override(setting),
{
    match setting {
        Some(FeatureSetting::Path(path)) => path,
        _ => None,
    }
}

/// Which questions a server may put to the user.
#[derive(Clone, Copy, Debug, PartialEq, Eq, Structural)]
pub struct ElicitationCapability {
    pub form: bool,
    pub url: bool,
}

/// Picks the questions that servers may put: both kinds or none.
pub fn client_elicitation_capability(auth_elicitation: bool) -> (capability: ElicitationCapability)
    ensures
        capability.form == auth_elicitation,
        capability.url == auth_elicitation,
{
    ElicitationCapability { form: auth_elicitation, url: auth_elicitation }
}

/// The first place at which there is a file.
pub open spec fn first_file<T>(places: Seq<(T, bool)>) -> Option<T>
    decreases places.len(),
{
    if places.len() == 0 {
        None
    } else if places[0].1 {
        Some(places[0].0)
    } else {
        first_file(places.drop_first())
    }
}

/// Finds the first of the places on the search path at which there is a file.
pub fn find_on_path<T>(places: Vec<(T, bool)>) -> (place: Option<T>)
    ensures
        place == first_file(places@),
{
    let ghost source = places@;
    assert(source.skip(0) =~= source);
    for place in it: places
        invariant
            it.seq() == source,
            first_file(source) == first_file(source.skip(it.index() as int)),
    {
        let ghost rest = source.skip(it.index() as int);
        assert(rest[0] == place);
        assert(rest.drop_first() =~= source.skip(it.index() + 1));
        if place.1 {
            return Some(place.0);
        }
    }
    None
}

/// Picks the executable of the runtime: the one that the environment names, else the one
/// on the search path, else the program itself.
pub fn resolve_codex_self_exe<T>(
    from_environment: Option<T>,
    on_path: Option<T>,
    own: Option<T>,
) -> (executable: Option<T>)
    ensures
        executable == match (from_environment, on_path) {
            (Some(named), _) => Some(named),
            (None, Some(located)) => Some(located),
            (None, None) => own,
        },
{
    match from_environment {
        Some(named) => Some(named),
        None => match on_path {
            Some(located) => Some(located),
            None => own,
        },
    }
}

/// What is configured is taken, and what is not has its default; the first place with a
/// file is found, and none exactly if there is no file at any.
pub proof fn law_choices<T>(url: Seq<char>, path: Option<String>, on: bool, places: Seq<(T, bool)>)
    ensures
        base_url(Some(url)) == url,
        base_url(None) == "https://chatgpt.com/backend-api/"@,
        path_override(None) is None,
        path_override(Some(FeatureSetting::Enabled(on))) is None,
        path_override(Some(FeatureSetting::Path(path))) == optional_text(path),
        match first_file(places) {
            Some(place) => exists|i: int|
                0 <= i < places.len() && #[trigger] places[i] == (place, true) && forall|j: int|
                    0 <= j < i ==> !(#[trigger] places[j]).1,
            None => forall|i: int| 0 <= i < places.len() ==> !(#[trigger] places[i]).1,
        },
    decreases places.len(),
{
    if places.len() > 0 {
        let rest = places.drop_first();
        law_choices(url, path, on, rest);
        if places[0].1 {
            assert(places[0] == (places[0].0, true));
        } else {
            match first_file(rest) {
                Some(place) => {
                    let i = choose|i: int|
                        0 <= i < rest.len() && #[trigger] rest[i] == (place, true) && forall|j: int|
                            0 <= j < i ==> !(#[trigger] rest[j]).1;
                    assert(places[i + 1] == (place, true));
                    assert forall|j: int| 0 <= j < i + 1 implies !(#[trigger] places[j]).1 by {
                        if j > 0 {
                            assert(rest[j - 1] == places[j]);
                        }
                    }
                },
                None => {
                    assert forall|i: int| 0 <= i < places.len() implies !(
                    #[trigger] places[i]).1 by {
                        if i > 0 {
                            assert(rest[i - 1] == places[i]);
                        }
                    }
                },
            }
        }
    }
}

} // verus!
