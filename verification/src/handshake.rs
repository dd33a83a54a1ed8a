//! Finding out at the join that two peers do not agree about what a snapshot means, and letting
//! nothing through until they do.
//!
//! A registry's sorted wire names *are* the wire format: indices are a type's rank among those
//! names and travel in every snapshot. So peers announce their registries at the join, and the
//! comparison gates. A host sends snapshots only to a client whose registries it has matched; a
//! client applies snapshots only once it has matched its host's.
//!
//! A mismatch is not transient: [`RegistryMismatch`] latches, blocks re-adoption, and clears only
//! when the lobby goes. A client that hears nothing within [`HandshakeTimeout`] latches
//! [`HandshakeTimedOut`] the same way.

use vstd::prelude::*;
use vstd::string::*;

use crate::number::{hex, hex_of};
use crate::text::{contains, lemma_contains_its_parts, lists, views};

verus! {

// ---- announcements ---------------------------------------------------------------------------

/// The shape of a registry: its wire names, sorted, and their hash.
pub struct RegistryShape {
    pub wire_hash: u64,
    pub wire_names: Vec<String>,
}

/// What each peer says about the shape of its registries.
///
/// Both index spaces, because they are independent: a peer can agree about every component and
/// still disagree about resources.
///
/// The names travel alongside the hashes only to make the error useful.
#[derive(Clone, Debug, PartialEq, Eq)]
pub struct TickedRegistryHandshake {
    pub components: u64,
    pub resources: u64,
    /// Sorted, as the wire has them.
    pub component_names: Vec<String>,
    pub resource_names: Vec<String>,
}

/// The contents of a [`TickedRegistryHandshake`].
pub struct HandshakeModel {
    pub components: u64,
    pub resources: u64,
    pub component_names: Seq<Seq<char>>,
    pub resource_names: Seq<Seq<char>>,
}

impl View for TickedRegistryHandshake {
    type V = HandshakeModel;

    open spec fn view(&self) -> HandshakeModel {
        HandshakeModel {
            components: self.components,
            resources: self.resources,
            component_names: views(self.component_names@),
            resource_names: views(self.resource_names@),
        }
    }
}

/// What a peer with these registries announces.
pub open spec fn announcement(
    components: RegistryShape,
    resources: Option<RegistryShape>,
) -> HandshakeModel {
    HandshakeModel {
        components: components.wire_hash,
        resources: match resources {
            Some(registry) => registry.wire_hash,
            None => 0,
        },
        component_names: views(components.wire_names@),
        resource_names: match resources {
            Some(registry) => views(registry.wire_names@),
            None => Seq::empty(),
        },
    }
}

/// Whether two announcements are of registries that mean the same on the wire.
pub open spec fn agree(ours: HandshakeModel, theirs: HandshakeModel) -> bool {
    ours.components == theirs.components && ours.resources == theirs.resources
}

/// The place of the first of `names`, at or after `from`, that is not in `others`.
pub open spec fn first_missing(names: Seq<Seq<char>>, others: Seq<Seq<char>>, from: int) -> int
    decreases names.len() - from,
{
    if from < 0 || from >= names.len() || !others.contains(names[from]) {
        from
    } else {
        first_missing(names, others, from + 1)
    }
}

/// Whether one of `names` is not in `others`.
pub open spec fn has_extra(names: Seq<Seq<char>>, others: Seq<Seq<char>>) -> bool {
    first_missing(names, others, 0) < names.len()
}

/// The first of `names` that is not in `others`.
pub open spec fn extra(names: Seq<Seq<char>>, others: Seq<Seq<char>>) -> Seq<char> {
    names[first_missing(names, others, 0)]
}

/// That `name` is only here, in words.
pub open spec fn only_here_text(kind: Seq<char>, name: Seq<char>) -> Seq<char> {
    kind + " \""@ + name + "\" is registered on this build and not on the peer's"@
}

/// That `name` is only there, in words.
pub open spec fn only_there_text(kind: Seq<char>, name: Seq<char>) -> Seq<char> {
    "the peer registers "@ + kind + " \""@ + name + "\" which this build does not"@
}

/// The first name that only one side registers, in words: "here and not there" first.
pub open spec fn name_difference_text(
    kind: Seq<char>,
    ours: Seq<Seq<char>>,
    theirs: Seq<Seq<char>>,
) -> Option<Seq<char>> {
    if has_extra(ours, theirs) {
        Some(only_here_text(kind, extra(ours, theirs)))
    } else if has_extra(theirs, ours) {
        Some(only_there_text(kind, extra(theirs, ours)))
    } else {
        None
    }
}

/// That the names agree and the hashes do not, in words.
pub open spec fn hash_difference_text(ours: HandshakeModel, theirs: HandshakeModel) -> Seq<char> {
    "the registries list the same names but hash differently (components "@ + hex(
        ours.components as nat,
    ) + " here, "@ + hex(theirs.components as nat) + " there; resources "@ + hex(
        ours.resources as nat,
    ) + " here, "@ + hex(theirs.resources as nat)
        + " there): the protocol version differs"@
}

/// The first registration that differs between two builds, in words.
pub open spec fn difference_text(ours: HandshakeModel, theirs: HandshakeModel) -> Seq<char> {
    match name_difference_text("component"@, ours.component_names, theirs.component_names) {
        Some(sentence) => sentence,
        None => match name_difference_text(
            "resource"@,
            ours.resource_names,
            theirs.resource_names,
        ) {
            Some(sentence) => sentence,
            None => hash_difference_text(ours, theirs),
        },
    }
}

/// The place of the first of `names` that is not in `others`, or the length of `names`.
fn find_missing(names: &Vec<String>, others: &Vec<String>) -> (at: usize)
    ensures
        at == first_missing(views(names@), views(others@), 0),
        at <= names@.len(),
{
    let mut at: usize = 0;
    while at < names.len() && lists(others, names[at].as_str())
        invariant
            at <= names@.len(),
            first_missing(views(names@), views(others@), 0) == first_missing(
                views(names@),
                views(others@),
                at as int,
            ),
        decreases names@.len() - at,
    {
        assert(views(names@)[at as int] == names@[at as int]@);
        at = at + 1;
    }
    assert(at < names@.len() ==> views(names@)[at as int] == names@[at as int]@);
    at
}

/// The first name that only one side registers, in words.
fn name_difference(kind: &str, ours: &Vec<String>, theirs: &Vec<String>) -> (sentence: Option<
    String,
>)
    ensures
        match sentence {
            Some(text) => name_difference_text(kind@, views(ours@), views(theirs@)) == Some(text@),
            None => name_difference_text(kind@, views(ours@), views(theirs@)) is None,
        },
{
    let here: usize = find_missing(ours, theirs);
    if here < ours.len() {
        let mut text = String::from_str(kind);
        text.append(" \"");
        text.append(ours[here].as_str());
        text.append("\" is registered on this build and not on the peer's");
        return Some(text);
    }
    let there: usize = find_missing(theirs, ours);
    if there < theirs.len() {
        let mut text = String::from_str("the peer registers ");
        text.append(kind);
        text.append(" \"");
        text.append(theirs[there].as_str());
        text.append("\" which this build does not");
        return Some(text);
    }
    None
}

/// A copy of a list of names.
pub(crate) fn copy_names(names: &Vec<String>) -> (copy: Vec<String>)
    ensures
        views(copy@) == views(names@),
{
    let mut copy: Vec<String> = Vec::new();
    let mut index: usize = 0;
    while index < names.len()
        invariant
            index <= names@.len(),
            copy@.len() == index,
            forall|k: int| 0 <= k < index ==> (#[trigger] copy@[k])@ == names@[k]@,
        decreases names@.len() - index,
    {
        copy.push(names[index].clone());
        index = index + 1;
    }
    assert(views(copy@) =~= views(names@));
    copy
}

impl TickedRegistryHandshake {
    /// What a peer announces: nothing, where it has no component registry.
    pub fn of(components: Option<&RegistryShape>, resources: Option<&RegistryShape>) -> (ours:
        Option<Self>)
        ensures
            match components {
                Some(registry) => ours matches Some(handshake) && handshake@ == announcement(
                    *registry,
                    match resources {
                        Some(other) => Some(*other),
                        None => None,
                    },
                ),
                None => ours is None,
            },
    {
        match components {
            Some(registry) => Some(Self::from_registries(registry, resources)),
            None => None,
        }
    }

    /// What a peer with these registries announces.
    pub fn from_registries(components: &RegistryShape, resources: Option<&RegistryShape>) -> (ours:
        Self)
        ensures
            ours@ == announcement(
                *components,
                match resources {
                    Some(other) => Some(*other),
                    None => None,
                },
            ),
    {
        let resource_names: Vec<String> = match resources {
            Some(registry) => copy_names(&registry.wire_names),
            None => Vec::new(),
        };
        assert(resources is None ==> views(resource_names@) =~= Seq::<Seq<char>>::empty());
        TickedRegistryHandshake {
            components: components.wire_hash,
            resources: match resources {
                Some(registry) => registry.wire_hash,
                None => 0,
            },
            component_names: copy_names(&components.wire_names),
            resource_names,
        }
    }

    /// Whether the registries of the two peers mean the same on the wire.
    pub fn matches(&self, other: &Self) -> (same: bool)
        ensures
            same == agree(self@, other@),
    {
        self.components == other.components && self.resources == other.resources
    }

    /// The first registration that differs between this build and the peer's, in words.
    ///
    /// Components before resources, "here and not there" before "there and not here", so the
    /// same pair of builds produces the same sentence on both machines up to which side is
    /// speaking, unless each of them registers something that the other does not.
    pub fn difference(&self, theirs: &Self) -> (sentence: String)
        ensures
            sentence@ == difference_text(self@, theirs@),
    {
        if let Some(sentence) = name_difference(
            "component",
            &self.component_names,
            &theirs.component_names,
        ) {
            return sentence;
        }
        if let Some(sentence) = name_difference(
            "resource",
            &self.resource_names,
            &theirs.resource_names,
        ) {
            return sentence;
        }
        let mut text = String::from_str(
            "the registries list the same names but hash differently (components ",
        );
        text.append(hex_of(self.components as u128).as_str());
        text.append(" here, ");
        text.append(hex_of(theirs.components as u128).as_str());
        text.append(" there; resources ");
        text.append(hex_of(self.resources as u128).as_str());
        text.append(" here, ");
        text.append(hex_of(theirs.resources as u128).as_str());
        text.append(" there): the protocol version differs");
        text
    }

    /// A copy of the announcement.
    pub fn copy(&self) -> (copy: Self)
        ensures
            copy@ == self@,
    {
        TickedRegistryHandshake {
            components: self.components,
            resources: self.resources,
            component_names: copy_names(&self.component_names),
            resource_names: copy_names(&self.resource_names),
        }
    }
}

/// Whether the first difference between two lists of names is one that only one side has.
pub open spec fn is_one_sided(ours: Seq<Seq<char>>, theirs: Seq<Seq<char>>) -> bool {
    !(has_extra(ours, theirs) && has_extra(theirs, ours))
}

/// The same pair of builds produces the same sentence on both machines up to which side is
/// speaking, where only one of them has names that the other lacks: the name that one calls its own
/// is the name that the other calls its peer's, and where the names agree both give the hashes.
pub proof fn lemma_difference_mirrors(ours: HandshakeModel, theirs: HandshakeModel)
    requires
        is_one_sided(ours.component_names, theirs.component_names),
        has_extra(ours.component_names, theirs.component_names) || has_extra(
            theirs.component_names,
            ours.component_names,
        ) || is_one_sided(ours.resource_names, theirs.resource_names),
    ensures
        has_extra(ours.component_names, theirs.component_names) ==> {
            let name = extra(ours.component_names, theirs.component_names);
            &&& difference_text(ours, theirs) == only_here_text("component"@, name)
            &&& difference_text(theirs, ours) == only_there_text("component"@, name)
        },
        !has_extra(ours.component_names, theirs.component_names) && !has_extra(
            theirs.component_names,
            ours.component_names,
        ) && has_extra(ours.resource_names, theirs.resource_names) ==> {
            let name = extra(ours.resource_names, theirs.resource_names);
            &&& difference_text(ours, theirs) == only_here_text("resource"@, name)
            &&& difference_text(theirs, ours) == only_there_text("resource"@, name)
        },
        !has_extra(ours.component_names, theirs.component_names) && !has_extra(
            theirs.component_names,
            ours.component_names,
        ) && !has_extra(ours.resource_names, theirs.resource_names) && !has_extra(
            theirs.resource_names,
            ours.resource_names,
        ) ==> {
            &&& difference_text(ours, theirs) == hash_difference_text(ours, theirs)
            &&& difference_text(theirs, ours) == hash_difference_text(theirs, ours)
        },
{
}

proof fn lemma_first_missing(names: Seq<Seq<char>>, others: Seq<Seq<char>>, from: int)
    requires
        0 <= from <= names.len(),
    ensures
        from <= first_missing(names, others, from) <= names.len(),
        forall|k: int|
            from <= k < first_missing(names, others, from) ==> others.contains(#[trigger] names[k]),
        first_missing(names, others, from) < names.len() ==> !others.contains(
            names[first_missing(names, others, from)],
        ),
    decreases names.len() - from,
{
    if from < names.len() && others.contains(names[from]) {
        lemma_first_missing(names, others, from + 1);
    }
}

/// The name that a difference gives is the first that the other side does not register, and there
/// is one exactly when the other side lacks some name.
pub proof fn lemma_extra_is_the_first(names: Seq<Seq<char>>, others: Seq<Seq<char>>)
    ensures
        has_extra(names, others) <==> exists|k: int|
            0 <= k < names.len() && !others.contains(#[trigger] names[k]),
        has_extra(names, others) ==> {
            let at = first_missing(names, others, 0);
            &&& 0 <= at < names.len()
            &&& !others.contains(names[at])
            &&& forall|k: int| 0 <= k < at ==> others.contains(#[trigger] names[k])
        },
{
    lemma_first_missing(names, others, 0);
}

// ---- what a session keeps of the handshake ---------------------------------------------------

/// What a host tells a client whose registries matched. Reliable, host-only.
///
/// `slot` is the client's spawner slot; `server_tick` says where the session's clock is;
/// `send_every` is how many ticks apart snapshots come.
#[derive(Clone, Copy, Debug, PartialEq, Eq, Structural)]
pub struct TickedSessionWelcome {
    pub slot: u8,
    pub server_tick: u64,
    pub send_every: u64,
}

/// Set when a peer's registries turned out not to match this one's.
///
/// Its presence blocks role adoption: the session is over and must not restart itself. Cleared
/// when the lobby goes, so that joining a *different* lobby is allowed to try again. `difference`
/// is the sentence to show the player.
#[derive(Clone, Debug)]
pub struct RegistryMismatch {
    pub peer: u128,
    pub ours: TickedRegistryHandshake,
    pub theirs: TickedRegistryHandshake,
    /// The first registration that differs, in words. See
    /// [`TickedRegistryHandshake::difference`].
    pub difference: String,
}

/// The contents of a [`RegistryMismatch`].
pub struct MismatchModel {
    pub peer: u128,
    pub ours: HandshakeModel,
    pub theirs: HandshakeModel,
    pub difference: Seq<char>,
}

impl View for RegistryMismatch {
    type V = MismatchModel;

    open spec fn view(&self) -> MismatchModel {
        MismatchModel {
            peer: self.peer,
            ours: self.ours@,
            theirs: self.theirs@,
            difference: self.difference@,
        }
    }
}

/// Set on a client that waited [`HandshakeTimeout`] for its host's registries and never heard
/// them. Latches and blocks re-adoption like [`RegistryMismatch`]; cleared with the lobby.
#[derive(Clone, Copy, Debug, PartialEq, Eq, Structural)]
pub struct HandshakeTimedOut {
    /// In nanoseconds.
    pub waited: u128,
}

/// How long a client waits for its host's registries before giving up, in nanoseconds.
#[derive(Clone, Copy, Debug, PartialEq, Eq, Structural)]
pub struct HandshakeTimeout(pub u128);

/// How long a client waits when nobody says otherwise: five seconds.
pub const DEFAULT_HANDSHAKE_TIMEOUT: u128 = 5_000_000_000;

/// On a client: the host's registries have been compared to this build's and match. Until it is
/// present every snapshot is dropped at the door.
#[derive(Clone, Copy, Debug, Default, PartialEq, Eq, Structural)]
pub struct RegistryVerified;

/// The spawner slot of this peer: on a client, the one that the host's
/// [`TickedSessionWelcome`] assigned; on a host, 0.
#[derive(Clone, Copy, Debug, PartialEq, Eq, Structural)]
pub struct LocalSpawnerSlot(pub u8);

/// On a host's client: its registries match, so it is told the world.
#[derive(Clone, Copy, Debug, Default, PartialEq, Eq, Structural)]
pub struct TickedPeerVerified;

/// Present where the handshake is installed: [`RegistryVerified`] is going to arrive, and
/// snapshots must wait for it.
#[derive(Clone, Copy, Debug, Default, PartialEq, Eq, Structural)]
pub struct HandshakeInstalled;

// ---- laws ------------------------------------------------------------------------------------

/// Two announcements agree exactly when both their hashes are equal, whatever names they list; a
/// peer without a resource registry announces the hash 0 and no names for it.
pub proof fn lemma_agreement_is_of_hashes(ours: HandshakeModel, theirs: HandshakeModel)
    ensures
        agree(ours, theirs) <==> ours.components == theirs.components && ours.resources
            == theirs.resources,
        agree(ours, theirs) == agree(theirs, ours),
        agree(ours, ours),
        agree(
            HandshakeModel {
                component_names: theirs.component_names,
                resource_names: theirs.resource_names,
                ..ours
            },
            ours,
        ),
{
}

/// Two peers announce the same exactly when their registries have the same hashes and names, one
/// that is missing counting as empty with the hash 0.
pub proof fn lemma_announcement_shows_the_registries(
    components: RegistryShape,
    resources: Option<RegistryShape>,
)
    ensures
        ({
            let told = announcement(components, resources);
            &&& told.components == components.wire_hash
            &&& told.component_names.len() == components.wire_names@.len()
            &&& forall|k: int|
                0 <= k < components.wire_names@.len() ==> #[trigger] told.component_names[k]
                    == components.wire_names@[k]@
            &&& resources is None ==> told.resources == 0 && told.resource_names.len() == 0
            &&& resources matches Some(registry) ==> {
                &&& told.resources == registry.wire_hash
                &&& told.resource_names.len() == registry.wire_names@.len()
                &&& forall|k: int|
                    0 <= k < registry.wire_names@.len() ==> #[trigger] told.resource_names[k]
                        == registry.wire_names@[k]@
            }
        }),
{
}

/// A difference names one: the first component that we register and the peer does not, where there
/// is one, else the first that the peer registers and we do not; then the same for resources; and
/// only where all names are common to both it speaks of the hashes.
pub proof fn lemma_difference_names_the_first(
    ours: HandshakeModel,
    theirs: HandshakeModel,
    at: int,
)
    ensures
        is_first_extra(ours.component_names, theirs.component_names, at) ==> difference_text(
            ours,
            theirs,
        ) == only_here_text("component"@, ours.component_names[at]),
        has_all(theirs.component_names, ours.component_names) && is_first_extra(
            theirs.component_names,
            ours.component_names,
            at,
        ) ==> difference_text(ours, theirs) == only_there_text(
            "component"@,
            theirs.component_names[at],
        ),
        has_all(theirs.component_names, ours.component_names) && has_all(
            ours.component_names,
            theirs.component_names,
        ) ==> {
            &&& is_first_extra(ours.resource_names, theirs.resource_names, at) ==> difference_text(
                ours,
                theirs,
            ) == only_here_text("resource"@, ours.resource_names[at])
            &&& has_all(theirs.resource_names, ours.resource_names) && is_first_extra(
                theirs.resource_names,
                ours.resource_names,
                at,
            ) ==> difference_text(ours, theirs) == only_there_text(
                "resource"@,
                theirs.resource_names[at],
            )
            &&& has_all(theirs.resource_names, ours.resource_names) && has_all(
                ours.resource_names,
                theirs.resource_names,
            ) ==> difference_text(ours, theirs) == hash_difference_text(ours, theirs)
        },
{
    lemma_extra_is_the_first(ours.component_names, theirs.component_names);
    lemma_extra_is_the_first(theirs.component_names, ours.component_names);
    lemma_extra_is_the_first(ours.resource_names, theirs.resource_names);
    lemma_extra_is_the_first(theirs.resource_names, ours.resource_names);
    lemma_only_first_extra(ours.component_names, theirs.component_names, at);
    lemma_only_first_extra(theirs.component_names, ours.component_names, at);
    lemma_only_first_extra(ours.resource_names, theirs.resource_names, at);
    lemma_only_first_extra(theirs.resource_names, ours.resource_names, at);
}

/// Whether `names[at]` is the first of the names that `others` lacks.
pub open spec fn is_first_extra(names: Seq<Seq<char>>, others: Seq<Seq<char>>, at: int) -> bool {
    &&& 0 <= at < names.len()
    &&& !others.contains(names[at])
    &&& forall|k: int| 0 <= k < at ==> others.contains(#[trigger] names[k])
}

/// Whether `names` has all of `others`.
pub open spec fn has_all(names: Seq<Seq<char>>, others: Seq<Seq<char>>) -> bool {
    forall|k: int| 0 <= k < others.len() ==> names.contains(#[trigger] others[k])
}

proof fn lemma_only_first_extra(names: Seq<Seq<char>>, others: Seq<Seq<char>>, at: int)
    ensures
        is_first_extra(names, others, at) ==> has_extra(names, others) && extra(names, others)
            == names[at],
        has_all(others, names) ==> !has_extra(names, others),
{
    lemma_extra_is_the_first(names, others);
    if is_first_extra(names, others, at) {
        assert(!others.contains(names[at]));
        let place = first_missing(names, others, 0);
        if place < at {
            assert(others.contains(names[place]));
        }
        if at < place {
            assert(others.contains(names[at]));
        }
    }
}

/// A difference in words names what differs: the name that one side lacks, or all four hashes.
pub proof fn lemma_difference_says_what(
    kind: Seq<char>,
    name: Seq<char>,
    ours: HandshakeModel,
    theirs: HandshakeModel,
)
    ensures
        contains(only_here_text(kind, name), kind) && contains(only_here_text(kind, name), name),
        contains(only_there_text(kind, name), kind) && contains(only_there_text(kind, name), name),
        contains(hash_difference_text(ours, theirs), hex(ours.components as nat)),
        contains(hash_difference_text(ours, theirs), hex(theirs.components as nat)),
        contains(hash_difference_text(ours, theirs), hex(ours.resources as nat)),
        contains(hash_difference_text(ours, theirs), hex(theirs.resources as nat)),
{
    let behind = "\" is registered on this build and not on the peer's"@;
    lemma_contains_its_parts(Seq::empty(), kind, " \""@, name, behind);
    assert(Seq::empty() + kind + " \""@ + name + behind =~= only_here_text(kind, name));
    lemma_contains_its_parts(
        "the peer registers "@,
        kind,
        " \""@,
        name,
        "\" which this build does not"@,
    );
    let first = "the registries list the same names but hash differently (components "@;
    let a = hex(ours.components as nat);
    let b = hex(theirs.components as nat);
    let c = hex(ours.resources as nat);
    let d = hex(theirs.resources as nat);
    let text = hash_difference_text(ours, theirs);
    let end = " there): the protocol version differs"@;
    let later = " there; resources "@ + c + " here, "@ + d + end;
    lemma_contains_its_parts(first, a, " here, "@, b, later);
    assert(first + a + " here, "@ + b + later =~= text);
    let earlier = first + a + " here, "@ + b + " there; resources "@;
    lemma_contains_its_parts(earlier, c, " here, "@, d, end);
    assert(earlier + c + " here, "@ + d + end =~= text);
}

/// An announcement and a mismatch are seen with all that they hold.
pub proof fn lemma_announcement_is_seen_whole(
    handshake: TickedRegistryHandshake,
    mismatch: RegistryMismatch,
)
    ensures
        handshake@.components == handshake.components,
        handshake@.resources == handshake.resources,
        handshake@.component_names.len() == handshake.component_names@.len(),
        handshake@.resource_names.len() == handshake.resource_names@.len(),
        forall|k: int|
            0 <= k < handshake.component_names@.len() ==> #[trigger] handshake@.component_names[k]
                == handshake.component_names@[k]@,
        forall|k: int|
            0 <= k < handshake.resource_names@.len() ==> #[trigger] handshake@.resource_names[k]
                == handshake.resource_names@[k]@,
        mismatch@.peer == mismatch.peer,
        mismatch@.ours == mismatch.ours@,
        mismatch@.theirs == mismatch.theirs@,
        mismatch@.difference == mismatch.difference@,
{
}

} // verus!
