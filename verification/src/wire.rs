//! Pin a registry's shape, so a wire-format change fails on the commit that makes it.
//!
//! A snapshot names a component or resource by a wire index, and nothing in a packet says which
//! type an index means. Indices are a type's rank among the **sorted** wire names, so the order of
//! registration does not matter; adding, removing or renaming a networked type does. Every list
//! taken here is compared as a set, so a caller may list names in whichever order reads best.

use vstd::prelude::*;
use vstd::string::*;

use crate::handshake::RegistryShape;
use crate::text::{
    contains, debug_list, debug_of, lemma_contains_its_parts, lemma_contains_what_stands_in_it,
    lists, lists_str, same, str_views, views,
};

verus! {

/// What a registry registers.
#[derive(Clone, Copy, Debug, PartialEq, Eq, Structural)]
pub enum WireKind {
    Components,
    Resources,
    Messages,
}

/// Why a registry is not what was pinned.
#[derive(Debug)]
pub enum WireFailure {
    /// The names on the wire are not the expected ones.
    Changed { kind: WireKind, found: Vec<String>, expected: Vec<String> },
    /// There is no resource registry, and names were expected.
    NoRegistry { expected: Vec<String> },
}

/// A resource registry that is not there in words, where `shown` is what was expected of it.
pub open spec fn no_registry_text(shown: Seq<char>) -> Seq<char> {
    "the app has no TickedResourceRegistry, so no resource is on the wire; expected "@ + shown
}

/// A resource registry that is not there in words, where `shown` is what was expected of it.
pub fn no_registry_words(shown: &str) -> (text: String)
    ensures
        text@ == no_registry_text(shown@),
{
    let mut text = String::from_str(
        "the app has no TickedResourceRegistry, so no resource is on the wire; expected ",
    );
    text.append(shown);
    text
}

/// What it means that the names of a kind have changed.
pub open spec fn change_text(kind: WireKind) -> Seq<char> {
    match kind {
        WireKind::Components => "the set of networked components changed, and the sorted names are the wire format. Adding, removing or renaming a networked component moves every index after it and changes the registry hash the join handshake compares, so every older build refuses the join. Reordering registrations is not a change. If the change is intended, update the expected list and say so in the commit."@,
        WireKind::Resources => "the set of networked resources changed, and the sorted names are the wire format. Adding, removing or renaming a networked resource moves every index after it and changes the registry hash the join handshake compares, so every older build refuses the join. Reordering registrations is not a change. If the change is intended, update the expected list and say so in the commit."@,
        WireKind::Messages => "the set of ensemble messages changed, and the sorted names are the wire format. Adding, removing or renaming a message changes the protocol hash and every older build refuses the join. If the change is intended, update the expected list and say so in the commit."@,
    }
}

/// Names that have changed in words, where `found` and `expected` are the two lists as shown.
pub open spec fn changed_text(kind: WireKind, found: Seq<char>, expected: Seq<char>) -> Seq<char> {
    change_text(kind) + "\n     found: "@ + found + "\n  expected: "@ + expected
}

/// Names that have changed in words, where `found` and `expected` are the two lists as shown.
pub fn changed_words(kind: WireKind, found: &str, expected: &str) -> (text: String)
    ensures
        text@ == changed_text(kind, found@, expected@),
{
    let mut text = String::from_str(
        match kind {
            WireKind::Components => "the set of networked components changed, and the sorted names are the wire format. Adding, removing or renaming a networked component moves every index after it and changes the registry hash the join handshake compares, so every older build refuses the join. Reordering registrations is not a change. If the change is intended, update the expected list and say so in the commit.",
            WireKind::Resources => "the set of networked resources changed, and the sorted names are the wire format. Adding, removing or renaming a networked resource moves every index after it and changes the registry hash the join handshake compares, so every older build refuses the join. Reordering registrations is not a change. If the change is intended, update the expected list and say so in the commit.",
            WireKind::Messages => "the set of ensemble messages changed, and the sorted names are the wire format. Adding, removing or renaming a message changes the protocol hash and every older build refuses the join. If the change is intended, update the expected list and say so in the commit.",
        },
    );
    text.append("\n     found: ");
    text.append(found);
    text.append("\n  expected: ");
    text.append(expected);
    text
}

/// A failure in words.
pub open spec fn wire_failure_text(failure: WireFailure) -> Seq<char> {
    match failure {
        WireFailure::Changed { kind, found, expected } => changed_text(
            kind,
            debug_list(views(found@)),
            debug_list(views(expected@)),
        ),
        WireFailure::NoRegistry { expected } => no_registry_text(debug_list(views(expected@))),
    }
}

impl WireFailure {
    /// The failure in words.
    pub fn message(&self) -> (text: String)
        ensures
            text@ == wire_failure_text(*self),
    {
        match self {
            WireFailure::Changed { kind, found, expected } => {
                let names = debug_of(found);
                let wanted = debug_of(expected);
                changed_words(*kind, names.as_str(), wanted.as_str())
            },
            WireFailure::NoRegistry { expected } => {
                let shown = debug_of(expected);
                no_registry_words(shown.as_str())
            },
        }
    }
}

/// Whether `failure` says that the names of `kind` are not `expected`, and what they are.
pub open spec fn is_change(
    failure: WireFailure,
    kind: WireKind,
    names: Seq<Seq<char>>,
    expected: Seq<Seq<char>>,
) -> bool {
    failure matches WireFailure::Changed { kind: changed, found, expected: wanted } && changed
        == kind && views(found@) == names && views(wanted@) == expected
}

fn owned(list: &[&str]) -> (copy: Vec<String>)
    ensures
        views(copy@) == str_views(list@),
{
    let mut copy: Vec<String> = Vec::new();
    let mut index: usize = 0;
    while index < list.len()
        invariant
            index <= list@.len(),
            copy@.len() == index,
            forall|k: int| 0 <= k < index ==> (#[trigger] copy@[k])@ == list@[k]@,
        decreases list@.len() - index,
    {
        copy.push(String::from_str(list[index]));
        index = index + 1;
    }
    assert(views(copy@) =~= str_views(list@));
    copy
}

fn change(kind: WireKind, names: &Vec<String>, expected: &[&str]) -> (failure: WireFailure)
    ensures
        is_change(failure, kind, views(names@), str_views(expected@)),
{
    let mut found: Vec<String> = Vec::new();
    let mut index: usize = 0;
    while index < names.len()
        invariant
            index <= names@.len(),
            found@.len() == index,
            forall|k: int| 0 <= k < index ==> (#[trigger] found@[k])@ == names@[k]@,
        decreases names@.len() - index,
    {
        found.push(names[index].clone());
        index = index + 1;
    }
    assert(views(found@) =~= views(names@));
    WireFailure::Changed { kind, found, expected: owned(expected) }
}

/// Whether two lists hold the same names.
pub open spec fn same_names(left: Seq<Seq<char>>, right: Seq<Seq<char>>) -> bool {
    forall|name: Seq<char>| #[trigger] left.contains(name) <==> right.contains(name)
}

fn hold_the_same(names: &Vec<String>, expected: &[&str]) -> (same: bool)
    ensures
        same == same_names(views(names@), str_views(expected@)),
{
    let mut index: usize = 0;
    while index < names.len()
        invariant
            index <= names@.len(),
            forall|k: int|
                0 <= k < index ==> str_views(expected@).contains(#[trigger] views(names@)[k]),
        decreases names@.len() - index,
    {
        assert(views(names@)[index as int] == names@[index as int]@);
        if !lists_str(expected, names[index].as_str()) {
            assert(views(names@).contains(views(names@)[index as int]));
            return false;
        }
        index = index + 1;
    }
    let mut number: usize = 0;
    while number < expected.len()
        invariant
            number <= expected@.len(),
            forall|k: int|
                0 <= k < number ==> views(names@).contains(#[trigger] str_views(expected@)[k]),
        decreases expected@.len() - number,
    {
        assert(str_views(expected@)[number as int] == expected@[number as int]@);
        if !lists(names, expected[number]) {
            assert(str_views(expected@).contains(str_views(expected@)[number as int]));
            return false;
        }
        number = number + 1;
    }
    assert(views(names@).len() == names@.len());
    assert(str_views(expected@).len() == expected@.len());
    true
}

/// The networked component wire names equal `expected`, as a set.
pub fn assert_wire_order(names: &Vec<String>, expected: &[&str]) -> (verdict: Result<
    (),
    WireFailure,
>)
    ensures
        match verdict {
            Ok(()) => same_names(views(names@), str_views(expected@)),
            Err(failure) => is_change(
                failure,
                WireKind::Components,
                views(names@),
                str_views(expected@),
            ) && !same_names(views(names@), str_views(expected@)),
        },
{
    if hold_the_same(names, expected) {
        Ok(())
    } else {
        Err(change(WireKind::Components, names, expected))
    }
}

/// The networked resource wire names equal `expected`, as a set.
pub fn assert_resource_wire_order(names: &Vec<String>, expected: &[&str]) -> (verdict: Result<
    (),
    WireFailure,
>)
    ensures
        match verdict {
            Ok(()) => same_names(views(names@), str_views(expected@)),
            Err(failure) => is_change(
                failure,
                WireKind::Resources,
                views(names@),
                str_views(expected@),
            ) && !same_names(views(names@), str_views(expected@)),
        },
{
    if hold_the_same(names, expected) {
        Ok(())
    } else {
        Err(change(WireKind::Resources, names, expected))
    }
}

/// The networked component wire names of a built peer equal `expected`, as a set.
pub fn assert_wire_names(components: &RegistryShape, expected: &[&str]) -> (verdict: Result<
    (),
    WireFailure,
>)
    ensures
        match verdict {
            Ok(()) => same_names(views(components.wire_names@), str_views(expected@)),
            Err(failure) => is_change(
                failure,
                WireKind::Components,
                views(components.wire_names@),
                str_views(expected@),
            ) && !same_names(views(components.wire_names@), str_views(expected@)),
        },
{
    assert_wire_order(&components.wire_names, expected)
}

/// The networked resource wire names of a built peer equal `expected`, as a set. A peer with no
/// resource registry has no networked resources, and `expected` must be empty.
pub fn assert_resource_wire_names(resources: Option<&RegistryShape>, expected: &[&str]) -> (verdict:
    Result<(), WireFailure>)
    ensures
        match resources {
            Some(registry) => match verdict {
                Ok(()) => same_names(views(registry.wire_names@), str_views(expected@)),
                Err(failure) => is_change(
                    failure,
                    WireKind::Resources,
                    views(registry.wire_names@),
                    str_views(expected@),
                ) && !same_names(views(registry.wire_names@), str_views(expected@)),
            },
            None => match verdict {
                Ok(()) => expected@.len() == 0,
                Err(WireFailure::NoRegistry { expected: shown }) => expected@.len() > 0 && views(
                    shown@,
                ) == str_views(expected@),
                Err(_) => false,
            },
        },
{
    match resources {
        Some(registry) => assert_resource_wire_order(&registry.wire_names, expected),
        None => {
            if expected.len() == 0 {
                return Ok(());
            }
            Err(WireFailure::NoRegistry { expected: owned(expected) })
        },
    }
}

/// The component registry's wire hash: the number the join handshake compares.
pub fn wire_hash(components: &RegistryShape) -> (hash: u64)
    ensures
        hash == components.wire_hash,
{
    components.wire_hash
}

/// The resource registry's wire hash, `0` for a peer without one, which is what the handshake
/// sends for it.
pub fn resource_wire_hash(resources: Option<&RegistryShape>) -> (hash: u64)
    ensures
        hash == (match resources {
            Some(registry) => registry.wire_hash,
            None => 0,
        }),
{
    match resources {
        Some(registry) => registry.wire_hash,
        None => 0,
    }
}

/// The message wire names equal `expected`, name for name: they are listed in wire-index order.
pub fn assert_ensemble_wire_names(names: &Vec<String>, expected: &[&str]) -> (verdict: Result<
    (),
    WireFailure,
>)
    ensures
        match verdict {
            Ok(()) => views(names@) == str_views(expected@),
            Err(failure) => is_change(
                failure,
                WireKind::Messages,
                views(names@),
                str_views(expected@),
            ) && views(names@) != str_views(expected@),
        },
{
    assert(views(names@).len() == names@.len());
    assert(str_views(expected@).len() == expected@.len());
    if names.len() != expected.len() {
        return Err(change(WireKind::Messages, names, expected));
    }
    let mut index: usize = 0;
    while index < names.len()
        invariant
            index <= names@.len() == expected@.len(),
            forall|k: int| 0 <= k < index ==> names@[k]@ == expected@[k]@,
        decreases names@.len() - index,
    {
        if !same(names[index].as_str(), expected[index]) {
            assert(views(names@)[index as int] == names@[index as int]@);
            assert(str_views(expected@)[index as int] == expected@[index as int]@);
            return Err(change(WireKind::Messages, names, expected));
        }
        index = index + 1;
    }
    assert(views(names@) =~= str_views(expected@));
    Ok(())
}

/// The order in which names are listed, and names listed twice, make no difference to what a set of
/// names is.
pub proof fn lemma_listing_order_does_not_matter(
    names: Seq<Seq<char>>,
    expected: Seq<Seq<char>>,
    rearranged: Seq<Seq<char>>,
)
    requires
        same_names(expected, rearranged),
    ensures
        same_names(names, expected) <==> same_names(names, rearranged),
{
    assert forall|name: Seq<char>| expected.contains(name) <==> #[trigger] rearranged.contains(
        name,
    ) by {
        assert(expected.contains(name) <==> rearranged.contains(name));
    }
}

/// Two lists name the same exactly when each has every name of the other; so one name more or less
/// on either side is a change.
pub proof fn lemma_every_name_counts(
    names: Seq<Seq<char>>,
    expected: Seq<Seq<char>>,
    name: Seq<char>,
)
    ensures
        same_names(names, expected) <==> {
            &&& forall|k: int| 0 <= k < names.len() ==> expected.contains(#[trigger] names[k])
            &&& forall|k: int| 0 <= k < expected.len() ==> names.contains(#[trigger] expected[k])
        },
        same_names(names, expected) && !expected.contains(name) ==> !same_names(
            names.push(name),
            expected,
        ) && !same_names(names, expected.push(name)),
        same_names(names, expected) == same_names(expected, names),
        same_names(names, names),
{
    if same_names(names, expected) {
        assert forall|k: int| 0 <= k < names.len() implies expected.contains(
            #[trigger] names[k],
        ) by {
            assert(names.contains(names[k]));
        }
        assert forall|k: int| 0 <= k < expected.len() implies names.contains(
            #[trigger] expected[k],
        ) by {
            assert(expected.contains(expected[k]));
            assert(names.contains(expected[k]) <==> expected.contains(expected[k]));
        }
        let longer = names.push(name);
        assert(longer[names.len() as int] == name);
        assert(longer.contains(name));
        let wider = expected.push(name);
        assert(wider[expected.len() as int] == name);
        assert(wider.contains(name));
        assert(names.contains(name) <==> expected.contains(name));
    }
    if (forall|k: int| 0 <= k < names.len() ==> expected.contains(#[trigger] names[k])) && (
    forall|k: int| 0 <= k < expected.len() ==> names.contains(#[trigger] expected[k])) {
        assert forall|one: Seq<char>| #[trigger] names.contains(one) <==> expected.contains(
            one,
        ) by {}
    }
    if same_names(expected, names) {
        assert forall|one: Seq<char>| #[trigger] names.contains(one) <==> expected.contains(
            one,
        ) by {
            assert(expected.contains(one) <==> names.contains(one));
        }
    }
    if same_names(names, expected) {
        assert forall|one: Seq<char>| #[trigger] expected.contains(one) <==> names.contains(
            one,
        ) by {
            assert(names.contains(one) <==> expected.contains(one));
        }
    }
}

/// A change in words shows both lists as they are, and a registry that is missing the list that was
/// expected of it.
pub proof fn lemma_change_shows_both_lists(
    failure: WireFailure,
    kind: WireKind,
    names: Seq<Seq<char>>,
    expected: Seq<Seq<char>>,
)
    requires
        is_change(failure, kind, names, expected),
    ensures
        contains(wire_failure_text(failure), debug_list(names)),
        contains(wire_failure_text(failure), debug_list(expected)),
        contains(wire_failure_text(failure), change_text(kind)),
        forall|shown: Seq<char>| #[trigger] contains(no_registry_text(shown), shown),
{
    let found = debug_list(names);
    let wanted = debug_list(expected);
    let text = wire_failure_text(failure);
    lemma_contains_its_parts(
        change_text(kind) + "\n     found: "@,
        found,
        "\n  expected: "@,
        wanted,
        Seq::empty(),
    );
    assert(change_text(kind) + "\n     found: "@ + found + "\n  expected: "@ + wanted
        + Seq::empty() =~= text);
    lemma_contains_what_stands_in_it(
        change_text(kind),
        change_text(kind),
        Seq::empty(),
        "\n     found: "@ + found + "\n  expected: "@ + wanted,
    );
    assert(Seq::empty() + change_text(kind) + ("\n     found: "@ + found + "\n  expected: "@
        + wanted) =~= text);
    assert forall|shown: Seq<char>| #[trigger] contains(no_registry_text(shown), shown) by {
        let start = "the app has no TickedResourceRegistry, so no resource is on the wire; expected "@;
        lemma_contains_what_stands_in_it(shown, shown, start, Seq::empty());
        assert(start + shown + Seq::empty() =~= no_registry_text(shown));
    }
}

} // verus!
