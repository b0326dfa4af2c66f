//! How nodes repair what they know: by telling each other which versions they
//! have, sending what the other lacks, and asking for what they lack.

use vstd::prelude::*;
use crate::control::announcements;
use crate::control::message::{ActionView, ControlTimer, DigestEntry, EventView, FrameView};
use crate::control::message::MessageView;
use crate::control::model;
use crate::control::model::{EntryView, PlaneView};
use crate::order;
use crate::order::Key;
use crate::types::{LinkId, MonoTime, NodeId};

verus! {

/// A digest tells the version of every origin that is known, expired or not,
/// each once and in ascending order, and nothing else.
pub proof fn digests_tell_what_is_known(lsdb: Map<NodeId, EntryView>, entry: DigestEntry)
    requires
        lsdb.dom().finite(),
    ensures
        model::digest(lsdb).contains(entry) <==> lsdb.contains_key(entry.origin)
            && lsdb[entry.origin].version == (entry.epoch, entry.seq),
        forall|i: int, j: int|
            0 <= i < j < model::digest(lsdb).len() ==> NodeId::before(
                (#[trigger] model::digest(lsdb)[i]).origin,
                (#[trigger] model::digest(lsdb)[j]).origin,
            ),
        model::digest(lsdb).len() == lsdb.dom().len(),
{
    let origins = order::finite_sets_are_listed::<NodeId>(lsdb.dom());
    let digest = model::digest(lsdb);
    order::ascending_is_injective::<NodeId>(origins);
    origins.unique_seq_to_set();
    assert(origins.to_set() =~= lsdb.dom());
    assert(origins.contains(entry.origin) <==> lsdb.contains_key(entry.origin));
    if digest.contains(entry) {
        let k = choose|k: int| 0 <= k < digest.len() && digest[k] == entry;
        assert(origins[k] == entry.origin);
    }
    if lsdb.contains_key(entry.origin) && lsdb[entry.origin].version == (entry.epoch, entry.seq) {
        let k = choose|k: int| 0 <= k < origins.len() && origins[k] == entry.origin;
        assert(digest[k] == entry);
    }
}

/// As long as a link is up, a digest goes out over it every ten seconds. For a
/// link that is not up nothing happens.
pub proof fn digests_are_sent_every_ten_seconds(
    p: PlaneView,
    now: MonoTime,
    link: LinkId,
    signed: MessageView,
    accepted: bool,
)
    ensures
        ({
            let timer = ControlTimer::Digest(link);
            let (q, actions) = model::transition(
                p,
                now,
                EventView::Timer(timer),
                signed,
                accepted,
            );
            &&& q == p
            &&& if p.adjacencies.contains_key(link) {
                &&& actions.len() == 2
                &&& actions[0] == ActionView::Send {
                    link,
                    frame: FrameView::Digest(model::digest(p.lsdb)),
                }
                &&& actions[1] matches ActionView::SetTimer { timer: next, at }
                &&& next == timer
                &&& announcements::is_in(at, now, 10_000)
            } else {
                actions.len() == 0
            }
        }),
{
    broadcast use MonoTime::at_millis;

}

/// What a node does with a digest that came over a link.
pub open spec fn told(
    p: PlaneView,
    now: MonoTime,
    link: LinkId,
    entries: Seq<DigestEntry>,
    signed: MessageView,
    accepted: bool,
) -> (PlaneView, Seq<ActionView>) {
    model::transition(
        p,
        now,
        EventView::Frame { link, frame: FrameView::Digest(entries) },
        signed,
        accepted,
    )
}

/// The announcement of the origin that is in force is the message, and it is
/// newer than everything that the digest tells of the origin.
pub open spec fn is_lacking(
    p: PlaneView,
    entries: Seq<DigestEntry>,
    origin: NodeId,
    message: MessageView,
) -> bool {
    &&& p.lsdb.contains_key(origin)
    &&& p.lsdb[origin].active matches Some(active) && active.message == message
    &&& forall|i: int|
        0 <= i < entries.len() && (#[trigger] entries[i]).origin == origin
            ==> announcements::is_newer(
            p.lsdb[origin].version.0,
            p.lsdb[origin].version.1,
            (entries[i].epoch, entries[i].seq),
        )
}

/// The digest tells of another origin than the node itself, which the node does
/// not know, or of a newer version of it.
pub open spec fn is_behind(p: PlaneView, entries: Seq<DigestEntry>, origin: NodeId) -> bool {
    &&& origin != p.me
    &&& exists|i: int|
        0 <= i < entries.len() && (#[trigger] entries[i]).origin == origin && (
        p.lsdb.contains_key(origin) ==> announcements::is_newer(
            entries[i].epoch,
            entries[i].seq,
            p.lsdb[origin].version,
        ))
}

/// A digest gives of every origin that it tells of a newest version.
proof fn newest_exists(entries: Seq<DigestEntry>, origin: NodeId, n: int) -> (best: int)
    requires
        0 <= n <= entries.len(),
        exists|i: int| 0 <= i < n && (#[trigger] entries[i]).origin == origin,
    ensures
        0 <= best < n,
        entries[best].origin == origin,
        forall|i: int|
            0 <= i < n && (#[trigger] entries[i]).origin == origin ==> !announcements::is_newer(
                entries[i].epoch,
                entries[i].seq,
                (entries[best].epoch, entries[best].seq),
            ),
    decreases n,
{
    let last = n - 1;
    if exists|i: int| 0 <= i < last && (#[trigger] entries[i]).origin == origin {
        let best = newest_exists(entries, origin, last);
        if entries[last].origin == origin && announcements::is_newer(
            entries[last].epoch,
            entries[last].seq,
            (entries[best].epoch, entries[best].seq),
        ) {
            last
        } else {
            best
        }
    } else {
        last
    }
}

/// The newest version that a digest gives of an origin is one of those that it
/// gives, and it gives none that is newer.
proof fn newest_is_newest(entries: Seq<DigestEntry>, origin: NodeId)
    requires
        exists|i: int| 0 <= i < entries.len() && (#[trigger] entries[i]).origin == origin,
    ensures
        model::origins_of(entries).contains(origin),
        exists|i: int|
            0 <= i < entries.len() && (#[trigger] entries[i]).origin == origin && model::newest(
                entries,
                origin,
            ) == (entries[i].epoch, entries[i].seq),
        forall|i: int|
            0 <= i < entries.len() && (#[trigger] entries[i]).origin == origin
                ==> !announcements::is_newer(
                entries[i].epoch,
                entries[i].seq,
                model::newest(entries, origin),
            ),
{
    let best = newest_exists(entries, origin, entries.len() as int);
    assert(model::tells_of(entries, best, origin));
    assert(model::is_newest(entries, origin, (entries[best].epoch, entries[best].seq)));
    let version = model::newest(entries, origin);
    assert(model::is_newest(entries, origin, version));
    let i = choose|i: int| #[trigger]
        model::tells_of(entries, i, origin) && entries[i].spec_version() == version;
    assert(entries[i].origin == origin);
    assert forall|k: int|
        0 <= k < entries.len() && (#[trigger] entries[k]).origin == origin implies
        !announcements::is_newer(entries[k].epoch, entries[k].seq, version) by {
        assert(model::tells_of(entries, k, origin));
    }
}

/// What a node owes to the sender of a digest is what that sender lacks.
proof fn what_is_owed(p: PlaneView, entries: Seq<DigestEntry>, origin: NodeId)
    ensures
        model::owed(p, entries).contains(origin) <==> p.lsdb.contains_key(origin) && (
        p.lsdb[origin].active matches Some(active) && is_lacking(
            p,
            entries,
            origin,
            active.message,
        )),
{
    if exists|i: int| 0 <= i < entries.len() && (#[trigger] entries[i]).origin == origin {
        newest_is_newest(entries, origin);
    } else if model::origins_of(entries).contains(origin) {
        let i = choose|i: int| model::tells_of(entries, i, origin);
        assert(entries[i].origin == origin);
    }
}

/// What a node wants of the sender of a digest is what the node is behind in.
proof fn what_is_wanted(p: PlaneView, entries: Seq<DigestEntry>, origin: NodeId)
    ensures
        model::wanted(p, entries).contains(origin) <==> is_behind(p, entries, origin),
{
    if exists|i: int| 0 <= i < entries.len() && (#[trigger] entries[i]).origin == origin {
        newest_is_newest(entries, origin);
    } else if model::origins_of(entries).contains(origin) {
        let i = choose|i: int| model::tells_of(entries, i, origin);
        assert(entries[i].origin == origin);
    }
}

/// There are no more origins in a digest than entries.
proof fn wanted_is_finite(p: PlaneView, entries: Seq<DigestEntry>)
    ensures
        model::wanted(p, entries).finite(),
{
    let told = entries.map_values(|e: DigestEntry| e.origin);
    let wanted = model::wanted(p, entries);
    assert forall|o: NodeId| wanted.contains(o) implies told.to_set().contains(o) by {
        let i = choose|i: int| model::tells_of(entries, i, o);
        assert(told[i] == o);
    }
    vstd::seq_lib::seq_to_set_is_finite::<NodeId>(told);
    vstd::set_lib::lemma_set_subset_finite(told.to_set(), wanted);
}

/// A digest of at most a thousand entries, over a link that is up, is answered
/// with every announcement in force that its sender lacks, and with one
/// request for all that the node itself is behind in, if there is anything.
/// Nothing else is sent, nothing is sent elsewhere, and nothing changes.
pub proof fn digests_are_answered(
    p: PlaneView,
    now: MonoTime,
    link: LinkId,
    entries: Seq<DigestEntry>,
    signed: MessageView,
    accepted: bool,
    action: ActionView,
)
    requires
        p.lsdb.dom().finite(),
        p.adjacencies.contains_key(link),
        entries.len() <= 1_000,
    ensures
        told(p, now, link, entries, signed, accepted).0 == p,
        told(p, now, link, entries, signed, accepted).1.contains(action) <==> match action {
            ActionView::Send { link: to, frame: FrameView::Lsa(message) } => to == link && exists|
                origin: NodeId,
            | #[trigger] is_lacking(p, entries, origin, message),
            ActionView::Send { link: to, frame: FrameView::DigestReq(origins) } => {
                &&& to == link
                &&& origins.len() > 0
                &&& forall|i: int, j: int|
                    0 <= i < j < origins.len() ==> NodeId::before(
                        #[trigger] origins[i],
                        #[trigger] origins[j],
                    )
                &&& forall|origin: NodeId| #[trigger]
                    origins.contains(origin) <==> is_behind(p, entries, origin)
            },
            _ => false,
        },
{
    let owed = model::owed(p, entries);
    let wanted = model::wanted(p, entries);
    assert(owed.subset_of(p.lsdb.dom()));
    vstd::set_lib::lemma_set_subset_finite(p.lsdb.dom(), owed);
    wanted_is_finite(p, entries);
    let sent = order::finite_sets_are_listed::<NodeId>(owed);
    let asked = order::finite_sets_are_listed::<NodeId>(wanted);
    let sends = model::send_each(link, p.lsdb, sent);
    let requests = model::request(link, wanted);
    let actions = told(p, now, link, entries, signed, accepted).1;
    assert(actions =~= sends + requests);
    assert forall|origin: NodeId| #[trigger] asked.contains(origin) <==> is_behind(
        p,
        entries,
        origin,
    ) by {
        what_is_wanted(p, entries, origin);
    }
    if actions.contains(action) {
        let k = choose|k: int| 0 <= k < actions.len() && actions[k] == action;
        if k < sends.len() {
            assert(actions[k] == sends[k]);
            assert(sent.contains(sent[k]));
            what_is_owed(p, entries, sent[k]);
            assert(is_lacking(p, entries, sent[k], model::message_of(p.lsdb, sent[k])));
        } else {
            assert(actions[k] == requests[k - sends.len()]);
            if asked.len() == 0 {
                assert forall|o: NodeId| !wanted.contains(o) by {
                    assert(asked.contains(o) <==> wanted.contains(o));
                }
                assert(wanted =~= Set::<NodeId>::empty());
            }
        }
    }
    match action {
        ActionView::Send { link: to, frame: FrameView::Lsa(message) } => {
            if to == link && exists|origin: NodeId| #[trigger]
                is_lacking(p, entries, origin, message) {
                let origin = choose|origin: NodeId| #[trigger]
                    is_lacking(p, entries, origin, message);
                what_is_owed(p, entries, origin);
                assert(sent.contains(origin));
                let k = choose|k: int| 0 <= k < sent.len() && sent[k] == origin;
                assert(actions[k] == sends[k]);
            }
        },
        ActionView::Send { link: to, frame: FrameView::DigestReq(origins) } => {
            if to == link && origins.len() > 0 && order::is_ascending::<NodeId>(origins) && (
            forall|origin: NodeId| #[trigger]
                origins.contains(origin) <==> is_behind(p, entries, origin)) {
                assert forall|origin: NodeId| origins.contains(origin) <==> wanted.contains(
                    origin,
                ) by {
                    what_is_wanted(p, entries, origin);
                }
                assert(order::lists::<NodeId>(origins, wanted));
                order::listing_is_unique::<NodeId>(origins, asked, wanted);
                assert(wanted.contains(origins[0]));
                assert(actions[sends.len() as int] == requests[0]);
            }
        },
        _ => {},
    }
}

/// A digest that is too long, or comes over a link that is not up, is not
/// answered.
pub proof fn other_digests_are_ignored(
    p: PlaneView,
    now: MonoTime,
    link: LinkId,
    entries: Seq<DigestEntry>,
    signed: MessageView,
    accepted: bool,
)
    requires
        !p.adjacencies.contains_key(link) || entries.len() > 1_000,
    ensures
        told(p, now, link, entries, signed, accepted) == (p, Seq::<ActionView>::empty()),
{
}

/// A request for at most a thousand origins, over a link that is up, is
/// answered with what is in force of each of them, and with nothing else.
/// Other requests are not answered. Nothing changes.
pub proof fn requests_are_answered(
    p: PlaneView,
    now: MonoTime,
    link: LinkId,
    origins: Seq<NodeId>,
    signed: MessageView,
    accepted: bool,
    action: ActionView,
)
    requires
        p.lsdb.dom().finite(),
    ensures
        ({
            let event = EventView::Frame { link, frame: FrameView::DigestReq(origins) };
            let (q, actions) = model::transition(p, now, event, signed, accepted);
            &&& q == p
            &&& actions.contains(action) <==> {
                &&& p.adjacencies.contains_key(link)
                &&& origins.len() <= 1_000
                &&& exists|origin: NodeId| #[trigger]
                    origins.contains(origin) && p.lsdb.contains_key(origin) && (
                    p.lsdb[origin].active matches Some(active) && action == ActionView::Send {
                        link,
                        frame: FrameView::Lsa(active.message),
                    })
            }
        }),
{
    let event = EventView::Frame { link, frame: FrameView::DigestReq(origins) };
    let actions = model::transition(p, now, event, signed, accepted).1;
    if p.adjacencies.contains_key(link) && origins.len() <= 1_000 {
        let known = model::available(p.lsdb, origins);
        assert(known.subset_of(p.lsdb.dom()));
        vstd::set_lib::lemma_set_subset_finite(p.lsdb.dom(), known);
        let listed = order::finite_sets_are_listed::<NodeId>(known);
        if actions.contains(action) {
            let k = choose|k: int| 0 <= k < actions.len() && actions[k] == action;
            assert(listed.contains(listed[k]));
            assert(known.contains(listed[k]));
        }
        if exists|origin: NodeId| #[trigger]
            origins.contains(origin) && p.lsdb.contains_key(origin) && (
            p.lsdb[origin].active matches Some(active) && action == ActionView::Send {
                link,
                frame: FrameView::Lsa(active.message),
            }) {
            let origin = choose|origin: NodeId| #[trigger]
                origins.contains(origin) && p.lsdb.contains_key(origin) && (
                p.lsdb[origin].active matches Some(active) && action == ActionView::Send {
                    link,
                    frame: FrameView::Lsa(active.message),
                });
            assert(listed.contains(origin));
            let k = choose|k: int| 0 <= k < listed.len() && listed[k] == origin;
            assert(actions[k] == action);
        }
    }
}

/// A request is answered once for each origin, however often it names it.
pub proof fn requests_are_answered_once(
    p: PlaneView,
    now: MonoTime,
    link: LinkId,
    origins: Seq<NodeId>,
    signed: MessageView,
    accepted: bool,
)
    requires
        model::is_valid(p),
    ensures
        ({
            let event = EventView::Frame { link, frame: FrameView::DigestReq(origins) };
            model::transition(p, now, event, signed, accepted).1.no_duplicates()
        }),
{
    let event = EventView::Frame { link, frame: FrameView::DigestReq(origins) };
    let actions = model::transition(p, now, event, signed, accepted).1;
    if actions.len() > 0 {
        let known = model::available(p.lsdb, origins);
        assert(known.subset_of(p.lsdb.dom()));
        vstd::set_lib::lemma_set_subset_finite(p.lsdb.dom(), known);
        let listed = order::finite_sets_are_listed::<NodeId>(known);
        order::ascending_is_injective::<NodeId>(listed);
        assert forall|i: int, j: int|
            0 <= i < actions.len() && 0 <= j < actions.len() && i != j implies actions[i]
            != actions[j] by {
            assert(listed.contains(listed[i]) && listed.contains(listed[j]));
            assert(model::is_entry_of(listed[i], p.lsdb[listed[i]]));
            assert(model::is_entry_of(listed[j], p.lsdb[listed[j]]));
        }
    }
}

} // verus!
