//! One shell, several windows: a whole local session from a single command.
//!
//! The process that is told how many peers to run is the launcher: it starts a signalling server,
//! starts the other peers as copies of itself told to be clients of that server, and hosts. Every
//! copy joins the first lobby the server lists.

use vstd::prelude::*;
use vstd::string::*;

use crate::number::{decimal, lemma_decimal_reads_back, number_in, parse_number};
use crate::text::same;

verus! {

/// `TICKED_LOCAL_SESSION=N`: how many peers the launcher runs, itself included.
pub const PEERS_VAR: &'static str = "TICKED_LOCAL_SESSION";

/// `TICKED_ROLE=host|client`: what this process does with the lobby list on its own.
pub const ROLE_VAR: &'static str = "TICKED_ROLE";

/// The signalling server every process connects to.
pub const URL_VAR: &'static str = "SIGNALLING_SERVER_URL";

/// The signalling server of a process that is told of none.
pub const DEFAULT_URL: &'static str = "ws://localhost:9090/ws";

/// The contents of a variable of the environment.
pub open spec fn var_view(var: Option<&str>) -> Option<Seq<char>> {
    match var {
        Some(text) => Some(text@),
        None => None,
    }
}

/// How many peers a launcher is told to run: a number from one up.
pub open spec fn peers_in(var: Option<Seq<char>>) -> Option<nat> {
    match var {
        None => None,
        Some(text) => match number_in(text, 10, u32::MAX as nat) {
            Ok(count) => if count >= 1 {
                Some(count)
            } else {
                None
            },
            Err(_) => None,
        },
    }
}

/// Whether a process is the launcher: it is told how many peers to run, and it is not itself
/// told what to be.
pub open spec fn launches(peers: Option<Seq<char>>, role: Option<Seq<char>>) -> bool {
    peers_in(peers) is Some && role is None
}

/// How many peers the launcher is told to run.
pub fn peer_count(peers: Option<&str>) -> (count: Option<u32>)
    ensures
        match count {
            Some(number) => peers_in(var_view(peers)) == Some(number as nat),
            None => peers_in(var_view(peers)) is None,
        },
{
    match peers {
        None => None,
        Some(text) => match parse_number(text, 10, 0xffff_ffff) {
            Ok(number) => if number >= 1 {
                Some(number as u32)
            } else {
                None
            },
            Err(_) => None,
        },
    }
}

/// Whether this process is the launcher: it read the peer count and was not itself launched.
pub fn is_launcher(peers: Option<&str>, role: Option<&str>) -> (launcher: bool)
    ensures
        launcher == launches(var_view(peers), var_view(role)),
{
    peer_count(peers).is_some() && role.is_none()
}

/// Where a process finds its signalling server.
#[derive(Debug)]
pub enum SignallingUrl {
    /// At this address.
    At(String),
    /// In this very process, which starts it on a free port the first time it is asked for.
    Own,
}

/// Where this process finds its signalling server: at `url` when that is set; in itself when it is
/// the launcher; at the local default otherwise.
pub fn signalling_url(url: Option<&str>, peers: Option<&str>, role: Option<&str>) -> (place:
    SignallingUrl)
    ensures
        match url {
            Some(given) => place matches SignallingUrl::At(text) && text@ == given@,
            None => if launches(var_view(peers), var_view(role)) {
                place is Own
            } else {
                place matches SignallingUrl::At(text) && text@ == DEFAULT_URL@
            },
        },
{
    if let Some(given) = url {
        return SignallingUrl::At(String::from_str(given));
    }
    if is_launcher(peers, role) {
        return SignallingUrl::Own;
    }
    SignallingUrl::At(String::from_str(DEFAULT_URL))
}

/// What a process does about a lobby on its own.
#[derive(Clone, Copy, Debug, PartialEq, Eq, Structural)]
pub enum AutoRole {
    Host,
    Client { joined: bool },
}

/// What a process does on its own when it starts.
#[derive(Debug)]
pub struct LocalSessionPlan {
    pub role: Option<AutoRole>,
    /// Whether it was told to be something that is neither `host` nor `client`.
    pub ignored: bool,
    /// On the launcher, the numbers of the peers to start.
    pub children: Option<Vec<u32>>,
}

/// The role that a process takes on its own.
pub open spec fn planned_role(peers: Option<Seq<char>>, role: Option<Seq<char>>) -> Option<
    AutoRole,
> {
    match role {
        Some(name) => if name == "host"@ {
            Some(AutoRole::Host)
        } else if name == "client"@ {
            Some(AutoRole::Client { joined: false })
        } else {
            None
        },
        None => if launches(peers, role) {
            Some(AutoRole::Host)
        } else {
            None
        },
    }
}

/// Hosts or joins as told; as the launcher, starts the other peers first, numbered from 1 up to
/// the count.
pub fn plan_local_session(peers: Option<&str>, role: Option<&str>) -> (plan: LocalSessionPlan)
    ensures
        plan.role == planned_role(var_view(peers), var_view(role)),
        plan.ignored == (var_view(role) matches Some(name) && name != "host"@ && name
            != "client"@),
        match plan.children {
            Some(numbers) => {
                &&& launches(var_view(peers), var_view(role))
                &&& numbers@.len() + 1 == peers_in(var_view(peers))->0
                &&& forall|k: int| 0 <= k < numbers@.len() ==> #[trigger] numbers@[k] == k + 1
            },
            None => !launches(var_view(peers), var_view(role)),
        },
{
    let launcher = is_launcher(peers, role);
    let mut ignored: bool = false;
    let chosen: Option<AutoRole> = match role {
        Some(name) => {
            if same(name, "host") {
                Some(AutoRole::Host)
            } else if same(name, "client") {
                Some(AutoRole::Client { joined: false })
            } else {
                ignored = true;
                None
            }
        },
        None => {
            if launcher {
                Some(AutoRole::Host)
            } else {
                None
            }
        },
    };
    let children: Option<Vec<u32>> = if launcher {
        let count: u32 = match peer_count(peers) {
            Some(number) => number,
            None => 1,
        };
        Some(numbers_below(count))
    } else {
        None
    };
    LocalSessionPlan { role: chosen, ignored, children }
}

/// The numbers from 1 up to, but not including, `count`.
fn numbers_below(count: u32) -> (numbers: Vec<u32>)
    requires
        count >= 1,
    ensures
        numbers@.len() + 1 == count,
        forall|k: int| 0 <= k < numbers@.len() ==> #[trigger] numbers@[k] == k + 1,
{
    let mut numbers: Vec<u32> = Vec::new();
    let mut index: u32 = 1;
    while index < count
        invariant
            1 <= index <= count,
            numbers@.len() + 1 == index,
            forall|k: int| 0 <= k < numbers@.len() ==> #[trigger] numbers@[k] == k + 1,
        decreases count - index,
    {
        numbers.push(index);
        index = index + 1;
    }
    numbers
}

/// What is changed in the environment of a peer that the launcher starts: it is to be a client of
/// the server at `url`, and hears nothing of how many peers to run. A variable without a value is
/// removed.
pub open spec fn child_changes(url: Seq<char>) -> Seq<(Seq<char>, Option<Seq<char>>)> {
    seq![(ROLE_VAR@, Some("client"@)), (URL_VAR@, Some(url)), (PEERS_VAR@, None)]
}

/// The contents of a list of changes.
pub open spec fn change_views(list: Seq<(String, Option<String>)>) -> Seq<
    (Seq<char>, Option<Seq<char>>),
> {
    list.map_values(
        |change: (String, Option<String>)|
            (
                change.0@,
                match change.1 {
                    Some(value) => Some(value@),
                    None => None,
                },
            ),
    )
}

/// What the launcher changes in the environment of each peer that it starts, where its own server
/// is at `url`. A variable without a value is removed.
pub fn child_variables(url: &str) -> (vars: Vec<(String, Option<String>)>)
    ensures
        change_views(vars@) == child_changes(url@),
{
    let mut vars: Vec<(String, Option<String>)> = Vec::new();
    vars.push((String::from_str(ROLE_VAR), Some(String::from_str("client"))));
    vars.push((String::from_str(URL_VAR), Some(String::from_str(url))));
    vars.push((String::from_str(PEERS_VAR), None));
    assert(change_views(vars@) =~= child_changes(url@));
    vars
}

/// An environment after changes, one behind the other.
pub open spec fn changed(
    environment: Map<Seq<char>, Seq<char>>,
    changes: Seq<(Seq<char>, Option<Seq<char>>)>,
) -> Map<Seq<char>, Seq<char>>
    decreases changes.len(),
{
    if changes.len() == 0 {
        environment
    } else {
        changed(
            match changes[0].1 {
                Some(value) => environment.insert(changes[0].0, value),
                None => environment.remove(changes[0].0),
            },
            changes.skip(1),
        )
    }
}

/// What an environment says of a variable.
pub open spec fn value_in(environment: Map<Seq<char>, Seq<char>>, name: Seq<char>) -> Option<
    Seq<char>,
> {
    if environment.contains_key(name) {
        Some(environment[name])
    } else {
        None
    }
}

/// A peer that the launcher starts joins at the launcher's server and starts nobody itself,
/// whatever the launcher's own environment says. Variables besides the three are left alone.
pub proof fn lemma_children_only_join(
    environment: Map<Seq<char>, Seq<char>>,
    url: Seq<char>,
    other: Seq<char>,
)
    ensures
        ({
            let child = changed(environment, child_changes(url));
            let peers = value_in(child, PEERS_VAR@);
            let role = value_in(child, ROLE_VAR@);
            &&& planned_role(peers, role) == Some(AutoRole::Client { joined: false })
            &&& !launches(peers, role)
            &&& value_in(child, URL_VAR@) == Some(url)
            &&& other != PEERS_VAR@ && other != ROLE_VAR@ && other != URL_VAR@ ==> value_in(
                child,
                other,
            ) == value_in(environment, other)
        }),
{
    reveal_strlit("host");
    reveal_strlit("client");
    assert("host"@.len() != "client"@.len());
    reveal_strlit("TICKED_LOCAL_SESSION");
    reveal_strlit("TICKED_ROLE");
    reveal_strlit("SIGNALLING_SERVER_URL");
    assert(PEERS_VAR@.len() == 20 && ROLE_VAR@.len() == 11 && URL_VAR@.len() == 21);
    reveal_with_fuel(changed, 4);
    let changes = child_changes(url);
    assert(changes.skip(1)[0] == changes[1]);
    assert(changes.skip(1).skip(1)[0] == changes[2]);
}

/// Without the variables a process does nothing on its own.
pub proof fn lemma_plain_process_is_left_alone(peers: Option<Seq<char>>)
    requires
        peers_in(peers) is None,
    ensures
        planned_role(peers, None) is None,
        !launches(peers, None),
{
}

/// What a process does about the lobby list.
#[derive(Debug)]
pub enum AutoAction<L> {
    StartHosting,
    Join(L),
    Refresh,
}

/// What a process with the role `auto` does next, and the role that it goes on with.
pub open spec fn driven<L>(
    auto: AutoRole,
    in_lobby: bool,
    first_listed: Option<L>,
    refresh_due: bool,
) -> (AutoRole, Option<AutoAction<L>>) {
    if in_lobby {
        (auto, None)
    } else {
        match auto {
            AutoRole::Host => (AutoRole::Client { joined: true }, Some(AutoAction::StartHosting)),
            AutoRole::Client { joined: true } => (auto, None),
            AutoRole::Client { joined: false } => match first_listed {
                Some(lobby) => (
                    AutoRole::Client { joined: true },
                    Some(AutoAction::Join(lobby)),
                ),
                None => if refresh_due {
                    (auto, Some(AutoAction::Refresh))
                } else {
                    (auto, None)
                },
            },
        }
    }
}

/// What to do about a lobby this frame: host once, or join the first lobby that is listed once,
/// asking for the list again whenever that is due. Nothing while there is a lobby already.
///
/// A lobby that ends, because the player left it, is not hosted or joined again behind their back.
pub fn drive_auto_role<L>(
    auto: &mut Option<AutoRole>,
    in_lobby: bool,
    first_listed: Option<L>,
    refresh_due: bool,
) -> (action: Option<AutoAction<L>>)
    ensures
        match *old(auto) {
            None => *final(auto) is None && action is None,
            Some(role) => {
                let (next, done) = driven(role, in_lobby, first_listed, refresh_due);
                *final(auto) == Some(next) && action == done
            },
        },
{
    let role = match *auto {
        None => {
            return None;
        },
        Some(role) => role,
    };
    if in_lobby {
        return None;
    }
    match role {
        AutoRole::Host => {
            *auto = Some(AutoRole::Client { joined: true });
            Some(AutoAction::StartHosting)
        },
        AutoRole::Client { joined } => {
            if joined {
                return None;
            }
            match first_listed {
                Some(lobby) => {
                    *auto = Some(AutoRole::Client { joined: true });
                    Some(AutoAction::Join(lobby))
                },
                None => {
                    if refresh_due {
                        Some(AutoAction::Refresh)
                    } else {
                        None
                    }
                },
            }
        },
    }
}

/// What a process meets in one frame: whether it is in a lobby, the first lobby that is listed,
/// and whether the list is due to be asked for.
pub struct AutoFrame<L> {
    pub in_lobby: bool,
    pub first_listed: Option<L>,
    pub refresh_due: bool,
}

/// The role that a process goes on with after several frames.
pub open spec fn driven_through<L>(auto: AutoRole, frames: Seq<AutoFrame<L>>) -> AutoRole
    decreases frames.len(),
{
    if frames.len() == 0 {
        auto
    } else {
        let first = frames[0];
        driven_through(
            driven(auto, first.in_lobby, first.first_listed, first.refresh_due).0,
            frames.skip(1),
        )
    }
}

/// Once a process has hosted or joined on its own it never does either again, whatever it meets.
pub proof fn lemma_hosts_or_joins_once<L>(frames: Seq<AutoFrame<L>>, last: AutoFrame<L>)
    ensures
        ({
            let joined = AutoRole::Client { joined: true };
            &&& driven_through(joined, frames) == joined
            &&& driven(
                driven_through(joined, frames),
                last.in_lobby,
                last.first_listed,
                last.refresh_due,
            ).1 is None
        }),
    decreases frames.len(),
{
    if frames.len() > 0 {
        lemma_hosts_or_joins_once(frames.skip(1), last);
    }
}

/// A number of peers from one on is read back from how it is written, and no other count starts
/// anybody: not zero, and not what is no number.
pub proof fn lemma_peer_count_reads_back(count: nat)
    requires
        count <= u32::MAX,
    ensures
        peers_in(Some(decimal(count))) == (if count >= 1 {
            Some(count)
        } else {
            None
        }),
        launches(Some(decimal(count)), None) <==> count >= 1,
        forall|text: Seq<char>| #[trigger]
            peers_in(Some(text)) is Some ==> number_in(text, 10, u32::MAX as nat) is Ok
                && peers_in(Some(text))->0 == number_in(text, 10, u32::MAX as nat)->Ok_0 && peers_in(
                Some(text),
            )->0 >= 1,
        peers_in(None) is None,
{
    lemma_decimal_reads_back(count, u32::MAX as nat);
}

/// What a process was told to be goes before how many peers it was asked for: told to be the host
/// or a client it is that and starts nobody, told to be anything else it does nothing on its own,
/// and told nothing it hosts exactly when it starts the others.
pub proof fn lemma_told_role_goes_first(
    peers: Option<Seq<char>>,
    other: Option<Seq<char>>,
    name: Seq<char>,
)
    ensures
        planned_role(peers, Some(name)) == planned_role(other, Some(name)),
        !launches(peers, Some(name)),
        name == "host"@ ==> planned_role(peers, Some(name)) == Some(AutoRole::Host),
        name == "client"@ ==> planned_role(peers, Some(name)) == Some(
            AutoRole::Client { joined: false },
        ),
        name != "host"@ && name != "client"@ ==> planned_role(peers, Some(name)) is None,
        launches(peers, None) <==> peers_in(peers) is Some,
        planned_role(peers, None) == (if peers_in(peers) is Some {
            Some(AutoRole::Host)
        } else {
            None
        }),
{
    reveal_strlit("host");
    reveal_strlit("client");
    assert("host"@ != "client"@) by {
        assert("host"@.len() == 4 && "client"@.len() == 6);
    }
}

/// A process that hosts does so in the first frame in which it is in no lobby, and one that joins
/// joins the first lobby of the list in the first frame in which it is in none and there is one;
/// until then a client asks for the list again whenever that is due, and neither does anything
/// while it is in a lobby.
pub proof fn lemma_hosts_or_joins_at_the_first_chance<L>(
    frames: Seq<AutoFrame<L>>,
    last: AutoFrame<L>,
)
    requires
        forall|k: int|
            0 <= k < frames.len() ==> (#[trigger] frames[k]).in_lobby || frames[k].first_listed is None,
    ensures
        ({
            let client = AutoRole::Client { joined: false };
            let waiting = driven_through(client, frames);
            let (next, action) = driven(
                waiting,
                last.in_lobby,
                last.first_listed,
                last.refresh_due,
            );
            &&& waiting == client
            &&& last.in_lobby ==> action is None && next == client
            &&& !last.in_lobby && last.first_listed is Some ==> action == Some(
                AutoAction::Join(last.first_listed->0),
            ) && next == (AutoRole::Client { joined: true })
            &&& !last.in_lobby && last.first_listed is None ==> next == client && action == (
            if last.refresh_due {
                Some(AutoAction::<L>::Refresh)
            } else {
                None
            })
        }),
        (forall|k: int| 0 <= k < frames.len() ==> (#[trigger] frames[k]).in_lobby) ==> {
            let waiting = driven_through(AutoRole::Host, frames);
            let (next, action) = driven(
                waiting,
                last.in_lobby,
                last.first_listed,
                last.refresh_due,
            );
            &&& waiting == AutoRole::Host
            &&& last.in_lobby ==> action is None && next == AutoRole::Host
            &&& !last.in_lobby ==> action == Some(AutoAction::<L>::StartHosting) && next == (
            AutoRole::Client { joined: true })
        },
    decreases frames.len(),
{
    if frames.len() > 0 {
        let rest = frames.skip(1);
        assert(frames[0].in_lobby || frames[0].first_listed is None);
        assert forall|k: int| 0 <= k < rest.len() implies (#[trigger] rest[k]).in_lobby
            || rest[k].first_listed is None by {
            assert(rest[k] == frames[k + 1]);
        }
        lemma_hosts_or_joins_at_the_first_chance(rest, last);
        if forall|k: int| 0 <= k < frames.len() ==> (#[trigger] frames[k]).in_lobby {
            assert(frames[0].in_lobby);
            assert forall|k: int| 0 <= k < rest.len() implies (#[trigger] rest[k]).in_lobby by {
                assert(rest[k] == frames[k + 1]);
            }
        }
    }
}

/// Variables and changes are seen as they are.
pub proof fn lemma_variables_are_seen_as_they_are(
    text: &str,
    list: Seq<(String, Option<String>)>,
)
    ensures
        var_view(Some(text)) == Some(text@),
        var_view(None) is None,
        change_views(list).len() == list.len(),
        forall|k: int|
            0 <= k < list.len() ==> (#[trigger] change_views(list)[k]).0 == list[k].0@ && (
            change_views(list)[k].1 is Some <==> list[k].1 is Some) && (list[k].1 is Some
                ==> change_views(list)[k].1 == Some(list[k].1->0@)),
{
}

} // verus!
