//! Which links the laboratory keeps, and how it opens them.

use vstd::prelude::*;
use crate::lab::graph::LabLink;
use crate::lab::numbers::Number;
use crate::order;
use crate::order::Key;
use crate::ordered_map::OrderedMap;
use crate::text;

verus! {

/// A request that makes no sense.
pub const BAD_REQUEST: u16 = 400;

/// Something that is not there.
pub const NOT_FOUND: u16 = 404;

/// A node that is not running.
pub const UNAVAILABLE: u16 = 503;

/// The slowest pace of the laboratory.
pub const MAX_PACE_MS: u64 = 2_000;

/// The cost of a link for which none is given.
pub open spec fn spec_default_link_cost() -> u16 {
    10
}

/// The cost of a link for which none is given.
#[verifier::when_used_as_spec(spec_default_link_cost)]
pub fn default_link_cost() -> (cost: u16)
    ensures
        cost == spec_default_link_cost(),
{
    10
}

/// Why the laboratory does not do what it is asked.
#[derive(Debug, Eq, PartialEq)]
pub struct LabError {
    pub status: u16,
    pub message: String,
}

/// What an error says.
#[verifier::ext_equal]
pub struct LabFault {
    pub status: u16,
    pub message: Seq<char>,
}

impl View for LabError {
    type V = LabFault;

    open spec fn view(&self) -> LabFault {
        LabFault { status: self.status, message: self.message@ }
    }
}

/// A request that makes no sense.
pub open spec fn bad_request_fault(message: Seq<char>) -> LabFault {
    LabFault { status: BAD_REQUEST, message }
}

/// Something that is not there.
pub open spec fn not_found_fault(kind: Seq<char>) -> LabFault {
    LabFault { status: NOT_FOUND, message: kind + " was not found"@ }
}

/// A request that makes no sense.
pub fn bad_request(message: &str) -> (error: LabError)
    ensures
        error@ == bad_request_fault(message@),
{
    LabError { status: BAD_REQUEST, message: message.to_owned() }
}

/// Something that is not there.
pub fn not_found(kind: &str) -> (error: LabError)
    ensures
        error@ == not_found_fault(kind@),
{
    let mut message = kind.to_owned();
    message.append(" was not found");
    LabError { status: NOT_FOUND, message }
}

/// What is said of a node that is not running.
pub open spec fn stopped_fault(id: u64, name: Seq<char>) -> LabFault {
    LabFault {
        status: UNAVAILABLE,
        message: "node "@ + text::decimal(id as nat) + " ("@ + name
            + ") process is stopped; restart it before creating a link"@,
    }
}

/// Whether a node can be used: its process runs, and it answers.
pub fn require_running(id: u64, name: &str, process_runs: bool, answers: bool) -> (checked: Result<
    (),
    LabError,
>)
    ensures
        match checked {
            Ok(_) => process_runs && answers,
            Err(error) => !(process_runs && answers) && error@ == stopped_fault(id, name@),
        },
{
    if process_runs && answers {
        return Ok(());
    }
    let mut message = "node ".to_owned();
    text::append_decimal(&mut message, id);
    message.append(" (");
    message.append(name);
    message.append(") process is stopped; restart it before creating a link");
    Err(LabError { status: UNAVAILABLE, message })
}

/// Whether a restart goes on though a link could not be opened: the far end
/// may be stopped.
pub fn restart_goes_on(status: u16) -> (goes_on: bool)
    ensures
        goes_on == (status == UNAVAILABLE),
{
    status == UNAVAILABLE
}

/// A link ends at the node and, where that is asked for, is wanted.
pub open spec fn is_restored(link: LabLink, node: u64, desired_only: bool) -> bool {
    (link.a == node || link.b == node) && (!desired_only || link.desired_up)
}

/// Whether a link ends at the node and, where that is asked for, is wanted.
pub fn should_restore_link(link: &LabLink, node: u64, desired_only: bool) -> (restored: bool)
    ensures
        restored == is_restored(*link, node, desired_only),
{
    (link.a == node || link.b == node) && (!desired_only || link.desired_up)
}

/// The link is between the two nodes.
pub open spec fn connects(link: LabLink, a: u64, b: u64) -> bool {
    link.a == a && link.b == b || link.a == b && link.b == a
}

/// A new link, which is wanted and not yet up.
pub open spec fn new_link(id: u64, a: u64, b: u64, cost: u16) -> LabLink {
    LabLink {
        id,
        a,
        b,
        up: false,
        desired_up: true,
        cost,
        latency_ms: 0,
        loss_per_million: 0,
        bandwidth_kbps: 0,
    }
}

/// The links of the laboratory.
pub struct LabLinks {
    links: OrderedMap<Number, LabLink>,
    next_link: u64,
    pace_ms: u64,
}

/// What is known of the links.
#[verifier::ext_equal]
pub struct LinksView {
    pub links: Map<u64, LabLink>,
    pub next_link: u64,
    pub pace_ms: u64,
}

impl View for LabLinks {
    type V = LinksView;

    closed spec fn view(&self) -> LinksView {
        LinksView { links: self.links@, next_link: self.next_link, pace_ms: self.pace_ms }
    }
}

/// Some link is between the two nodes.
pub open spec fn has_link(links: Map<u64, LabLink>, a: u64, b: u64) -> bool {
    exists|id: u64| #[trigger] links.contains_key(id) && connects(links[id], a, b)
}

/// Why a link cannot be made, if it cannot.
pub open spec fn new_link_fault(
    links: Map<u64, LabLink>,
    a: u64,
    b: u64,
    cost: u16,
) -> Option<LabFault> {
    if a == b {
        Some(bad_request_fault("a link requires two different nodes"@))
    } else if cost == 0 {
        Some(bad_request_fault("link cost must be greater than zero"@))
    } else if has_link(links, a, b) {
        Some(bad_request_fault("a link between these nodes already exists"@))
    } else {
        None
    }
}

/// The numbers of the links that end at a node.
pub open spec fn incident(links: Map<u64, LabLink>, node: u64, desired_only: bool) -> Set<u64> {
    Set::new(|id: u64| links.contains_key(id) && is_restored(links[id], node, desired_only))
}

/// The numbers of the links that are wanted.
pub open spec fn wanted(links: Map<u64, LabLink>) -> Set<u64> {
    Set::new(|id: u64| links.contains_key(id) && links[id].desired_up)
}

/// The links with the given numbers, by ascending number.
pub open spec fn listed(links: Map<u64, LabLink>, ids: Set<u64>) -> Seq<LabLink> {
    let numbers = order::ascending::<Number>(ids);
    Seq::new(numbers.len(), |i: int| links[numbers[i]])
}

impl LabLinks {
    /// The links are in order, and each has its number.
    pub closed spec fn wf(&self) -> bool {
        &&& self.links.wf()
        &&& forall|id: u64| #[trigger] self.links@.contains_key(id) ==> self.links@[id].id == id
    }

    /// Each link has its number, and there are finitely many.
    pub proof fn links_have_numbers(&self)
        requires
            self.wf(),
        ensures
            self@.links.dom().finite(),
            forall|id: u64| #[trigger] self@.links.contains_key(id) ==> self@.links[id].id == id,
    {
        self.links.ranks_list_domain();
    }

    /// No links yet.
    pub fn new(pace_ms: u64) -> (links: Self)
        ensures
            links.wf(),
            links@ == (LinksView { links: Map::empty(), next_link: 1, pace_ms }),
    {
        LabLinks { links: OrderedMap::new(), next_link: 1, pace_ms }
    }

    /// The pace of the laboratory.
    pub fn pace_ms(&self) -> (pace_ms: u64)
        ensures
            pace_ms == self@.pace_ms,
    {
        self.pace_ms
    }

    /// The link with the number.
    pub fn get(&self, id: u64) -> (link: Result<LabLink, LabError>)
        requires
            self.wf(),
        ensures
            match link {
                Ok(l) => self@.links.contains_key(id) && l == self@.links[id],
                Err(error) => !self@.links.contains_key(id) && error@ == not_found_fault("link"@),
            },
    {
        match self.links.get(&Number(id)) {
            Some(link) => Ok(*link),
            None => Err(not_found("link")),
        }
    }

    /// Whether some link is between the two nodes.
    fn joins(&self, a: u64, b: u64) -> (joined: bool)
        requires
            self.wf(),
        ensures
            joined == has_link(self@.links, a, b),
    {
        let mut i: usize = 0;
        proof {
            self.links.ranks_list_domain();
        }
        while i < self.links.len()
            invariant
                self.wf(),
                self.links.wf(),
                i <= self.links.ranks().len(),
                forall|k: int|
                    0 <= k < i ==> !connects(
                        self@.links[#[trigger] self.links.ranks()[k]],
                        a,
                        b,
                    ),
            decreases self.links.ranks().len() - i,
        {
            let link: LabLink = *self.links.value_at(i);
            if link.a == a && link.b == b || link.a == b && link.b == a {
                assert(self@.links.contains_key(self.links.ranks()[i as int]));
                return true;
            }
            i = i + 1;
        }
        proof {
            if has_link(self@.links, a, b) {
                let id = choose|id: u64| #[trigger]
                    self@.links.contains_key(id) && connects(self@.links[id], a, b);
                assert(self@.links.dom().contains(id));
                assert(self.links.ranks().contains(id));
            }
        }
        false
    }

    /// Makes a link, which is wanted and not yet up, and gives its number.
    pub fn begin_connect(&mut self, a: u64, b: u64, cost: u16) -> (id: Result<u64, LabError>)
        requires
            old(self).wf(),
        ensures
            final(self).wf(),
            match id {
                Ok(n) => {
                    &&& new_link_fault(old(self)@.links, a, b, cost) is None
                    &&& n == old(self)@.next_link
                    &&& final(self)@ == (LinksView {
                        links: old(self)@.links.insert(n, new_link(n, a, b, cost)),
                        next_link: if n == u64::MAX {
                            0
                        } else {
                            (n + 1) as u64
                        },
                        ..old(self)@
                    })
                },
                Err(error) => {
                    &&& new_link_fault(old(self)@.links, a, b, cost) == Some(error@)
                    &&& final(self)@ == old(self)@
                },
            },
    {
        if a == b {
            return Err(bad_request("a link requires two different nodes"));
        }
        if cost == 0 {
            return Err(bad_request("link cost must be greater than zero"));
        }
        if self.joins(a, b) {
            return Err(bad_request("a link between these nodes already exists"));
        }
        let ghost before = self@;
        let id: u64 = self.next_link;
        self.next_link = self.next_link.wrapping_add(1);
        self.links.insert(
            Number(id),
            LabLink {
                id,
                a,
                b,
                up: false,
                desired_up: true,
                cost,
                latency_ms: 0,
                loss_per_million: 0,
                bandwidth_kbps: 0,
            },
        );
        assert(self@.links =~= before.links.insert(id, new_link(id, a, b, cost)));
        Ok(id)
    }

    /// Puts a link in the place of the one with its number.
    fn replace(&mut self, link: LabLink)
        requires
            old(self).wf(),
        ensures
            final(self).wf(),
            final(self)@ == (LinksView {
                links: old(self)@.links.insert(link.id, link),
                ..old(self)@
            }),
    {
        self.links.insert(Number(link.id), link);
    }

    /// A link that was opened is up.
    pub fn opened(&mut self, id: u64)
        requires
            old(self).wf(),
        ensures
            final(self).wf(),
            final(self)@ == (if old(self)@.links.contains_key(id) {
                LinksView {
                    links: old(self)@.links.insert(
                        id,
                        LabLink { up: true, ..old(self)@.links[id] },
                    ),
                    ..old(self)@
                }
            } else {
                old(self)@
            }),
    {
        if let Ok(link) = self.get(id) {
            let mut link = link;
            link.up = true;
            self.replace(link);
        }
    }

    /// Forgets a link.
    pub fn remove(&mut self, id: u64)
        requires
            old(self).wf(),
        ensures
            final(self).wf(),
            final(self)@ == (LinksView { links: old(self)@.links.remove(id), ..old(self)@ }),
    {
        let _ = self.links.remove(&Number(id));
    }

    /// Turns a link over. A link that was wanted is no longer wanted nor up;
    /// one that was not is to be opened first.
    pub fn toggle(&mut self, id: u64) -> (to_open: Result<bool, LabError>)
        requires
            old(self).wf(),
        ensures
            final(self).wf(),
            match to_open {
                Ok(open) => {
                    &&& old(self)@.links.contains_key(id)
                    &&& open == !old(self)@.links[id].desired_up
                    &&& final(self)@ == (if open {
                        old(self)@
                    } else {
                        LinksView {
                            links: old(self)@.links.insert(
                                id,
                                LabLink {
                                    desired_up: false,
                                    up: false,
                                    ..old(self)@.links[id]
                                },
                            ),
                            ..old(self)@
                        }
                    })
                },
                Err(error) => {
                    &&& !old(self)@.links.contains_key(id)
                    &&& error@ == not_found_fault("link"@)
                    &&& final(self)@ == old(self)@
                },
            },
    {
        let link = match self.get(id) {
            Ok(link) => link,
            Err(error) => {
                return Err(error);
            },
        };
        if link.desired_up {
            let mut link = link;
            link.desired_up = false;
            link.up = false;
            self.replace(link);
            Ok(false)
        } else {
            Ok(true)
        }
    }

    /// A link that was not wanted and was opened is wanted and up.
    pub fn raised(&mut self, id: u64) -> (link: Result<LabLink, LabError>)
        requires
            old(self).wf(),
        ensures
            final(self).wf(),
            match link {
                Ok(l) => {
                    &&& old(self)@.links.contains_key(id)
                    &&& l == (LabLink { desired_up: true, up: true, ..old(self)@.links[id] })
                    &&& final(self)@ == (LinksView {
                        links: old(self)@.links.insert(id, l),
                        ..old(self)@
                    })
                },
                Err(error) => {
                    &&& !old(self)@.links.contains_key(id)
                    &&& error@ == not_found_fault("link"@)
                    &&& final(self)@ == old(self)@
                },
            },
    {
        match self.get(id) {
            Ok(link) => {
                let mut link = link;
                link.desired_up = true;
                link.up = true;
                self.replace(link);
                Ok(link)
            },
            Err(error) => Err(error),
        }
    }

    /// Sets how a link impairs frames.
    pub fn set_conditions(
        &mut self,
        id: u64,
        latency_ms: u64,
        loss_per_million: u64,
        bandwidth_kbps: u64,
    ) -> (link: Result<LabLink, LabError>)
        requires
            old(self).wf(),
        ensures
            final(self).wf(),
            match link {
                Ok(l) => {
                    &&& old(self)@.links.contains_key(id)
                    &&& l == (LabLink {
                        latency_ms,
                        loss_per_million,
                        bandwidth_kbps,
                        ..old(self)@.links[id]
                    })
                    &&& final(self)@ == (LinksView {
                        links: old(self)@.links.insert(id, l),
                        ..old(self)@
                    })
                },
                Err(error) => {
                    &&& !old(self)@.links.contains_key(id)
                    &&& error@ == not_found_fault("link"@)
                    &&& final(self)@ == old(self)@
                },
            },
    {
        match self.get(id) {
            Ok(link) => {
                let mut link = link;
                link.latency_ms = latency_ms;
                link.loss_per_million = loss_per_million;
                link.bandwidth_kbps = bandwidth_kbps;
                self.replace(link);
                Ok(link)
            },
            Err(error) => Err(error),
        }
    }

    /// Sets the pace of the laboratory, and gives the links that it applies
    /// to.
    pub fn set_pace(&mut self, pace_ms: u64) -> (links: Result<Vec<LabLink>, LabError>)
        requires
            old(self).wf(),
        ensures
            final(self).wf(),
            match links {
                Ok(list) => {
                    &&& pace_ms <= MAX_PACE_MS
                    &&& final(self)@ == (LinksView { pace_ms, ..old(self)@ })
                    &&& list@ == listed(old(self)@.links, wanted(old(self)@.links))
                },
                Err(error) => {
                    &&& pace_ms > MAX_PACE_MS
                    &&& final(self)@ == old(self)@
                    &&& error@ == bad_request_fault("pace_ms must be between 0 and 2000"@)
                },
            },
    {
        if pace_ms > MAX_PACE_MS {
            return Err(bad_request("pace_ms must be between 0 and 2000"));
        }
        self.pace_ms = pace_ms;
        let mut list: Vec<LabLink> = Vec::new();
        let ghost mut kept: Seq<u64> = Seq::empty();
        let ghost keep = wanted(self@.links);
        let mut i: usize = 0;
        proof {
            self.links.ranks_list_domain();
        }
        while i < self.links.len()
            invariant
                self.links.wf(),
                self.links@ == self@.links,
                keep == wanted(self@.links),
                order::lists::<Number>(self.links.ranks(), self.links@.dom()),
                order::lists_kept::<Number>(kept, self.links.ranks(), i as int, keep),
                list@.len() == kept.len(),
                forall|k: int| 0 <= k < list@.len() ==> #[trigger] list@[k] == self@.links[kept[k]],
            decreases self.links.ranks().len() - i,
        {
            let link: LabLink = *self.links.value_at(i);
            let ghost id = self.links.ranks()[i as int];
            proof {
                order::lists_one_more::<Number>(kept, self.links.ranks(), i as int, keep);
            }
            if link.desired_up {
                list.push(link);
                proof {
                    assert(keep.contains(id));
                    kept = kept.push(id);
                }
            } else {
                assert(!keep.contains(id));
            }
            i = i + 1;
        }
        proof {
            order::lists_all_kept::<Number>(kept, self.links.ranks(), self.links@.dom(), keep);
            assert(self.links@.dom().intersect(keep) =~= keep);
            assert(list@ =~= listed(self@.links, keep));
        }
        Ok(list)
    }

    /// The numbers of the links that end at a node, in ascending order.
    pub fn incident_link_ids(&self, node: u64, desired_only: bool) -> (ids: Vec<u64>)
        requires
            self.wf(),
        ensures
            ids@ == order::ascending::<Number>(incident(self@.links, node, desired_only)),
            forall|id: u64| #[trigger]
                ids@.contains(id) <==> incident(self@.links, node, desired_only).contains(id),
    {
        let mut ids: Vec<u64> = Vec::new();
        let ghost keep = incident(self@.links, node, desired_only);
        let mut i: usize = 0;
        proof {
            self.links.ranks_list_domain();
        }
        while i < self.links.len()
            invariant
                self.wf(),
                self.links.wf(),
                self.links@ == self@.links,
                keep == incident(self@.links, node, desired_only),
                order::lists::<Number>(self.links.ranks(), self.links@.dom()),
                order::lists_kept::<Number>(ids@, self.links.ranks(), i as int, keep),
            decreases self.links.ranks().len() - i,
        {
            let link: LabLink = *self.links.value_at(i);
            proof {
                order::lists_one_more::<Number>(ids@, self.links.ranks(), i as int, keep);
                assert(self.links@.contains_key(self.links.ranks()[i as int]));
            }
            if should_restore_link(&link, node, desired_only) {
                ids.push(link.id);
            }
            i = i + 1;
        }
        proof {
            let ranks = self.links.ranks();
            order::lists_all_kept::<Number>(ids@, ranks, self.links@.dom(), keep);
            assert(self.links@.dom().intersect(keep) =~= keep);
            assert(ranks.take(ranks.len() as int) =~= ranks);
            assert forall|id: u64| #[trigger] ids@.contains(id) <==> keep.contains(id) by {
                assert(ranks.contains(id) <==> self.links@.dom().contains(id));
            }
        }
        ids
    }

    /// Forgets the links that end at a node.
    pub fn remove_incident(&mut self, node: u64)
        requires
            old(self).wf(),
        ensures
            final(self).wf(),
            final(self)@ == (LinksView {
                links: old(self)@.links.remove_keys(incident(old(self)@.links, node, false)),
                ..old(self)@
            }),
    {
        let ghost before = self@;
        let ids = self.incident_link_ids(node, false);
        let mut i: usize = 0;
        assert(self@ =~= LinksView {
            links: before.links.remove_keys(ids@.take(0).to_set()),
            ..before
        });
        while i < ids.len()
            invariant
                self.wf(),
                i <= ids@.len(),
                self@ == (LinksView {
                    links: before.links.remove_keys(ids@.take(i as int).to_set()),
                    ..before
                }),
            decreases ids@.len() - i,
        {
            self.remove(ids[i]);
            proof {
                let less = ids@.take(i as int);
                let more = ids@.take(i + 1);
                assert(more =~= less.push(ids@[i as int]));
                assert forall|x: u64| #[trigger] more.to_set().contains(x) <==> less.to_set().insert(
                    ids@[i as int],
                ).contains(x) by {
                    if less.contains(x) {
                        let k = choose|k: int| 0 <= k < less.len() && less[k] == x;
                        assert(more[k] == x);
                    }
                    if x == ids@[i as int] {
                        assert(more[i as int] == x);
                    }
                    if more.contains(x) {
                        let k = choose|k: int| 0 <= k < more.len() && more[k] == x;
                        if k < i {
                            assert(less[k] == x);
                        }
                    }
                }
                assert(more.to_set() =~= less.to_set().insert(ids@[i as int]));
                assert(self@.links =~= before.links.remove_keys(more.to_set()));
            }
            i = i + 1;
        }
        proof {
            assert(ids@.take(i as int) =~= ids@);
            assert forall|x: u64| #[trigger] ids@.to_set().contains(x) <==> incident(
                before.links,
                node,
                false,
            ).contains(x) by {
                assert(ids@.contains(x) <==> incident(before.links, node, false).contains(x));
            }
            assert(ids@.to_set() =~= incident(before.links, node, false));
        }
    }

    /// All links, by ascending number.
    pub fn all(&self) -> (links: Vec<LabLink>)
        requires
            self.wf(),
        ensures
            links@ == listed(self@.links, self@.links.dom()),
    {
        let mut list: Vec<LabLink> = Vec::new();
        let ghost goal = listed(self@.links, self@.links.dom());
        let mut i: usize = 0;
        proof {
            self.links.ranks_list_domain();
        }
        while i < self.links.len()
            invariant
                self.links.wf(),
                self.links@ == self@.links,
                self.links.ranks() == order::ascending::<Number>(self@.links.dom()),
                goal == listed(self@.links, self@.links.dom()),
                i <= self.links.ranks().len(),
                list@ == goal.take(i as int),
            decreases self.links.ranks().len() - i,
        {
            let link: LabLink = *self.links.value_at(i);
            list.push(link);
            assert(goal.take(i + 1) =~= goal.take(i as int).push(goal[i as int]));
            assert(list@ =~= goal.take(i + 1));
            i = i + 1;
        }
        assert(list@ =~= goal);
        list
    }
}

/// One of the things that are done, one after the other, to open a link.
#[derive(Clone, Copy, Debug, Eq, PartialEq, Structural)]
pub enum ConnectTask {
    /// Make sure that a node is running.
    Require { node: u64 },
    /// Stop the proxy that the link may still have.
    StopProxy,
    /// Start a proxy in front of the far node.
    StartProxy { far: u64 },
    /// Tell a node that it may have the link.
    Allow { node: u64, peer: u64, cost: u16 },
    /// Let the near node connect to the proxy.
    Connect { node: u64, peer: u64, cost: u16 },
    /// Keep the proxy.
    KeepProxy,
}

/// What is done to open a link.
pub open spec fn connect_plan(link: LabLink) -> Seq<ConnectTask> {
    seq![
        ConnectTask::Require { node: link.a },
        ConnectTask::Require { node: link.b },
        ConnectTask::StopProxy,
        ConnectTask::StartProxy { far: link.b },
        ConnectTask::Allow { node: link.a, peer: link.b, cost: link.cost },
        ConnectTask::Allow { node: link.b, peer: link.a, cost: link.cost },
        ConnectTask::Connect { node: link.a, peer: link.b, cost: link.cost },
        ConnectTask::KeepProxy,
    ]
}

/// What is done to open a link. The first task that fails ends the attempt.
pub fn connect_tasks(link: &LabLink) -> (tasks: Vec<ConnectTask>)
    ensures
        tasks@ == connect_plan(*link),
{
    let mut tasks: Vec<ConnectTask> = Vec::new();
    tasks.push(ConnectTask::Require { node: link.a });
    tasks.push(ConnectTask::Require { node: link.b });
    tasks.push(ConnectTask::StopProxy);
    tasks.push(ConnectTask::StartProxy { far: link.b });
    tasks.push(ConnectTask::Allow { node: link.a, peer: link.b, cost: link.cost });
    tasks.push(ConnectTask::Allow { node: link.b, peer: link.a, cost: link.cost });
    tasks.push(ConnectTask::Connect { node: link.a, peer: link.b, cost: link.cost });
    tasks.push(ConnectTask::KeepProxy);
    assert(tasks@ =~= connect_plan(*link));
    tasks
}

/// A proxy runs after the first tasks, with the link not yet open.
pub open spec fn has_loose_proxy(link: LabLink, done: int) -> bool {
    exists|i: int| 0 <= i < done && (#[trigger] connect_plan(link)[i]) is StartProxy
}

/// Whether the proxy that was started is to be stopped when a task fails.
pub fn stops_proxy(task: &ConnectTask) -> (stops: bool)
    ensures
        stops == (*task is Connect || *task is Allow),
{
    match task {
        ConnectTask::Connect { .. } => true,
        ConnectTask::Allow { .. } => true,
        _ => false,
    }
}

/// No proxy is left over: whenever a task fails while a proxy runs that no link
/// has yet, the proxy is stopped.
pub proof fn failed_links_leave_no_proxy(link: LabLink, failed: int)
    requires
        0 <= failed < 7,
    ensures
        has_loose_proxy(link, failed) <==> (connect_plan(link)[failed] is Connect || connect_plan(
            link,
        )[failed] is Allow),
{
    let plan = connect_plan(link);
    assert(plan[3] is StartProxy);
    assert(!(plan[0] is StartProxy) && !(plan[1] is StartProxy) && !(plan[2] is StartProxy));
}

/// The laboratory never has two links between the same nodes.
pub proof fn links_are_single(
    links: Map<u64, LabLink>,
    id: u64,
    a: u64,
    b: u64,
    cost: u16,
    x: u64,
    y: u64,
)
    requires
        new_link_fault(links, a, b, cost) is None,
        forall|p: u64, q: u64|
            #[trigger] links.contains_key(p) && #[trigger] links.contains_key(q) && connects(
                links[p],
                links[q].a,
                links[q].b,
            ) ==> p == q,
        !links.contains_key(id),
    ensures
        ({
            let more = links.insert(id, new_link(id, a, b, cost));
            more.contains_key(x) && more.contains_key(y) && connects(
                more[x],
                more[y].a,
                more[y].b,
            ) ==> x == y
        }),
{
    let more = links.insert(id, new_link(id, a, b, cost));
    if more.contains_key(x) && more.contains_key(y) && connects(more[x], more[y].a, more[y].b) && x
        != y {
        if x == id {
            assert(links.contains_key(y));
            assert(connects(links[y], a, b));
        } else if y == id {
            assert(links.contains_key(x));
            assert(connects(links[x], a, b));
        } else {
            assert(links.contains_key(x) && links.contains_key(y));
        }
    }
}

/// The edges of the mesh that the laboratory starts with, by position.
pub open spec fn default_edges() -> Seq<(usize, usize)> {
    seq![(0usize, 1usize), (1, 2), (0, 3), (3, 2), (2, 4), (3, 4)]
}

/// Of the edges, those between nodes that there are.
pub open spec fn existing(edges: Seq<(usize, usize)>, count: usize) -> Seq<(usize, usize)> {
    edges.filter(|edge: (usize, usize)| edge.0 < count && edge.1 < count)
}

/// The edges that join each node behind the fifth to the one before it.
pub open spec fn chain(count: usize) -> Seq<(usize, usize)> {
    if count <= 5 {
        Seq::empty()
    } else {
        Seq::new((count - 5) as nat, |i: int| ((i + 4) as usize, (i + 5) as usize))
    }
}

/// The edges of the mesh that the laboratory starts with, for so many nodes.
pub fn initial_edges(count: usize) -> (edges: Vec<(usize, usize)>)
    ensures
        edges@ == existing(default_edges(), count) + chain(count),
{
    let start: [(usize, usize); 6] = [(0, 1), (1, 2), (0, 3), (3, 2), (2, 4), (3, 4)];
    let ghost all = default_edges();
    let ghost keep = |edge: (usize, usize)| edge.0 < count && edge.1 < count;
    let mut edges: Vec<(usize, usize)> = Vec::new();
    let mut i: usize = 0;
    proof {
        assert(start@ =~= all);
        assert(all.take(0).filter(keep) =~= Seq::<(usize, usize)>::empty()) by {
            reveal(Seq::filter);
        }
    }
    while i < 6
        invariant
            i <= 6,
            start@ == all,
            all.len() == 6,
            keep == (|edge: (usize, usize)| edge.0 < count && edge.1 < count),
            edges@ == all.take(i as int).filter(keep),
        decreases 6 - i,
    {
        let edge: (usize, usize) = start[i];
        proof {
            let more = all.take(i + 1);
            assert(more.drop_last() =~= all.take(i as int));
            assert(more.last() == edge);
            reveal(Seq::filter);
        }
        if edge.0 < count && edge.1 < count {
            edges.push(edge);
        }
        i = i + 1;
    }
    assert(all.take(i as int) =~= all);
    let ghost first = edges@;
    let mut n: usize = 5;
    assert(edges@ =~= first + Seq::<(usize, usize)>::empty());
    while n < count
        invariant
            5 <= n,
            n <= count || count <= 5,
            count <= 5 ==> n == 5,
            edges@ == first + chain(n),
        decreases count - n,
    {
        let ghost before = edges@;
        edges.push((n - 1, n));
        proof {
            assert(chain((n + 1) as usize) =~= chain(n).push(((n - 1) as usize, n)));
            assert(edges@ =~= first + chain((n + 1) as usize));
        }
        n = n + 1;
    }
    proof {
        if count <= 5 {
            assert(chain(n) =~= chain(count));
        }
    }
    edges
}

/// The name of the node at a position, of those that the laboratory starts
/// with.
pub open spec fn name_words(index: usize) -> Seq<char> {
    if index == 0 {
        "drone-17"@
    } else if index == 1 {
        "vehicle-3"@
    } else if index == 2 {
        "ground-2"@
    } else if index == 3 {
        "relay-west"@
    } else if index == 4 {
        "c2-main"@
    } else {
        "node-"@ + text::decimal((index + 1) as nat)
    }
}

/// The name of the node at a position, of those that the laboratory starts
/// with.
pub fn initial_name(index: usize) -> (name: String)
    requires
        index < usize::MAX,
    ensures
        name@ == name_words(index),
{
    match index {
        0 => "drone-17".to_owned(),
        1 => "vehicle-3".to_owned(),
        2 => "ground-2".to_owned(),
        3 => "relay-west".to_owned(),
        4 => "c2-main".to_owned(),
        _ => default_name(index as u64 + 1),
    }
}

/// The name of a node for which none is given.
pub fn default_name(id: u64) -> (name: String)
    ensures
        name@ == "node-"@ + text::decimal(id as nat),
{
    let mut name = "node-".to_owned();
    text::append_decimal(&mut name, id);
    name
}

} // verus!
