//! Network partitions: which directed links are cut at a point of virtual time.
//!
//! A `PartitionRuntime` holds a schedule, ordered by time, and the links that
//! are cut. It does no I/O: an engine advances it at points of its own event
//! loop. Two runs with the same schedule and the same clock cut the same links
//! at the same instants. Windows that overlap compose: a link is open again only
//! once nothing cuts it any more.

use std::collections::BTreeMap;
use vstd::prelude::*;

verus! {

/// A node of the network.
#[derive(Debug, Clone, Copy, PartialEq, Eq, Structural)]
pub struct NodeId(pub usize);

/// A directed link between two nodes.
#[derive(Debug, Clone, Copy, PartialEq, Eq, Structural)]
pub struct Link {
    pub from: NodeId,
    pub to: NodeId,
}

/// A point of virtual time.
#[derive(Debug, Clone, Copy, PartialEq, Eq, Structural)]
pub struct Timestamp(pub u64);

/// What an entry does to its links.
#[derive(Debug, Clone, Copy, PartialEq, Eq, Structural)]
pub enum PartitionOp {
    Activate,
    Heal,
}

/// One edge of a partition window: links that are cut or healed at an instant.
#[derive(Debug, Clone, PartialEq, Eq)]
pub struct PartitionScheduleEntry {
    pub timestamp: Timestamp,
    pub op: PartitionOp,
    pub links: Vec<Link>,
    pub scenario_name: String,
}

/// What is reported of an entry that takes effect.
#[derive(Debug, Clone, PartialEq, Eq)]
pub enum PartitionEvent {
    Started { scenario_name: String, links: Vec<Link> },
    Healed { scenario_name: String, link_count: usize },
}

/// How often a link stands in a list.
pub open spec fn occurrences(links: Seq<Link>, link: Link) -> nat
    decreases links.len(),
{
    if links.len() == 0 {
        0
    } else {
        occurrences(links.drop_last(), link) + if links.last() == link {
            1nat
        } else {
            0
        }
    }
}

/// What an entry adds to the number of windows that cut a link.
pub open spec fn effect(entry: PartitionScheduleEntry, link: Link) -> int {
    match entry.op {
        PartitionOp::Activate => occurrences(entry.links@, link) as int,
        PartitionOp::Heal => -occurrences(entry.links@, link),
    }
}

/// How many windows cut a link after the given entries.
pub open spec fn net_cuts(entries: Seq<PartitionScheduleEntry>, link: Link) -> int
    decreases entries.len(),
{
    if entries.len() == 0 {
        0
    } else {
        net_cuts(entries.drop_last(), link) + effect(entries.last(), link)
    }
}

/// Whether the entries stand in order of time.
pub open spec fn is_sorted(entries: Seq<PartitionScheduleEntry>) -> bool {
    forall|i: int, j: int|
        0 <= i <= j < entries.len() ==> (#[trigger] entries[i]).timestamp.0 <= (
        #[trigger] entries[j]).timestamp.0
}

/// The entries of one instant, in order.
pub open spec fn at_time(entries: Seq<PartitionScheduleEntry>, t: u64) -> Seq<
    PartitionScheduleEntry,
>
    decreases entries.len(),
{
    if entries.len() == 0 {
        Seq::empty()
    } else if entries.last().timestamp.0 == t {
        at_time(entries.drop_last(), t).push(entries.last())
    } else {
        at_time(entries.drop_last(), t)
    }
}

/// Whether `sorted` holds the entries in order of time, those of one instant in
/// the order in which they were given.
pub open spec fn is_stable_sort(
    given: Seq<PartitionScheduleEntry>,
    sorted: Seq<PartitionScheduleEntry>,
) -> bool {
    &&& is_sorted(sorted)
    &&& forall|t: u64| #[trigger] at_time(sorted, t) == at_time(given, t)
}

/// How many entries have taken effect once the clock shows `now`, where `done`
/// had before.
pub open spec fn due(entries: Seq<PartitionScheduleEntry>, done: nat, now: u64) -> nat
    decreases entries.len() - done,
{
    if done < entries.len() && entries[done as int].timestamp.0 <= now {
        due(entries, done + 1, now)
    } else {
        done
    }
}

/// Whether no link is healed that is not cut, up to the entry `to`.
pub open spec fn heals_cuts_only(entries: Seq<PartitionScheduleEntry>, to: nat) -> bool {
    forall|k: int, link: Link|
        0 <= k <= to ==> #[trigger] net_cuts(entries.take(k), link) >= 0
}

/// Whether an event reports an entry.
pub open spec fn reports(event: PartitionEvent, entry: PartitionScheduleEntry) -> bool {
    match entry.op {
        PartitionOp::Activate => event matches PartitionEvent::Started { scenario_name, links }
            && scenario_name@ == entry.scenario_name@ && links@ == entry.links@,
        PartitionOp::Heal => event matches PartitionEvent::Healed { scenario_name, link_count }
            && scenario_name@ == entry.scenario_name@ && link_count == entry.links@.len(),
    }
}

/// The number by which a link is kept.
pub open spec fn link_number(link: Link) -> nat {
    link.from.0 as nat * 0x1_0000_0000_0000_0000 + link.to.0 as nat
}

/// The number by which a link is kept.
fn link_key(link: Link) -> (key: u128)
    ensures
        key == link_number(link),
{
    link.from.0 as u128 * 0x1_0000_0000_0000_0000 + link.to.0 as u128
}

/// The instants' entries of two lists in a row.
proof fn lemma_at_time_concat(
    a: Seq<PartitionScheduleEntry>,
    b: Seq<PartitionScheduleEntry>,
    t: u64,
)
    ensures
        at_time(a + b, t) == at_time(a, t) + at_time(b, t),
    decreases b.len(),
{
    if b.len() == 0 {
        assert(a + b =~= a);
        assert(at_time(a, t) + at_time(b, t) =~= at_time(a, t));
    } else {
        assert((a + b).drop_last() =~= a + b.drop_last());
        lemma_at_time_concat(a, b.drop_last(), t);
        assert(at_time(a + b, t) =~= at_time(a, t) + at_time(b, t));
    }
}

/// No entries of an instant stand among entries of earlier ones.
proof fn lemma_at_time_none(a: Seq<PartitionScheduleEntry>, t: u64)
    requires
        forall|i: int| 0 <= i < a.len() ==> (#[trigger] a[i]).timestamp.0 != t,
    ensures
        at_time(a, t) == Seq::<PartitionScheduleEntry>::empty(),
    decreases a.len(),
{
    if a.len() > 0 {
        assert(forall|i: int|
            0 <= i < a.drop_last().len() ==> (#[trigger] a.drop_last()[i]) == a[i]);
        lemma_at_time_none(a.drop_last(), t);
    }
}

/// Where entries at or after `t` begin.
fn first_not_before(entries: &Vec<PartitionScheduleEntry>, t: u64) -> (pos: usize)
    requires
        is_sorted(entries@),
    ensures
        pos <= entries@.len(),
        forall|i: int| 0 <= i < pos ==> (#[trigger] entries@[i]).timestamp.0 < t,
        forall|i: int| pos <= i < entries@.len() ==> (#[trigger] entries@[i]).timestamp.0 >= t,
{
    let mut lo: usize = 0;
    let mut hi: usize = entries.len();
    while lo < hi
        invariant
            lo <= hi <= entries@.len(),
            is_sorted(entries@),
            forall|i: int| 0 <= i < lo ==> (#[trigger] entries@[i]).timestamp.0 < t,
            forall|i: int| hi <= i < entries@.len() ==> (#[trigger] entries@[i]).timestamp.0 >= t,
        decreases hi - lo,
    {
        let mid = lo + (hi - lo) / 2;
        if entries[mid].timestamp.0 < t {
            lo = mid + 1;
        } else {
            hi = mid;
        }
    }
    lo
}

/// An entry that moves from the end of one list to before those of its instant
/// in another keeps its place among them.
proof fn lemma_at_time_move(
    rest: Seq<PartitionScheduleEntry>,
    sorted: Seq<PartitionScheduleEntry>,
    entry: PartitionScheduleEntry,
    pos: int,
    t: u64,
)
    requires
        0 <= pos <= sorted.len(),
        forall|i: int| 0 <= i < pos ==> (#[trigger] sorted[i]).timestamp.0 < entry.timestamp.0,
    ensures
        at_time(rest, t) + at_time(sorted.insert(pos, entry), t) == at_time(rest.push(entry), t)
            + at_time(sorted, t),
{
    let (a, b) = (sorted.take(pos), sorted.skip(pos));
    let one = seq![entry];
    assert(sorted =~= a + b);
    assert(sorted.insert(pos, entry) =~= a + (one + b));
    lemma_at_time_concat(a, b, t);
    lemma_at_time_concat(a, one + b, t);
    lemma_at_time_concat(one, b, t);
    assert(one.drop_last() =~= Seq::<PartitionScheduleEntry>::empty());
    assert(at_time(one.drop_last(), t) =~= Seq::<PartitionScheduleEntry>::empty());
    assert(rest.push(entry).drop_last() =~= rest);
    if entry.timestamp.0 == t {
        lemma_at_time_none(a, t);
    }
    assert(at_time(rest, t) + at_time(sorted.insert(pos, entry), t) =~= at_time(
        rest.push(entry),
        t,
    ) + at_time(sorted, t));
}

/// Brings the entries in order of time; those of one instant keep their order.
pub fn sort_schedule(schedule: Vec<PartitionScheduleEntry>) -> (sorted: Vec<
    PartitionScheduleEntry,
>)
    ensures
        is_stable_sort(schedule@, sorted@),
{
    let mut rest = schedule;
    let mut sorted: Vec<PartitionScheduleEntry> = Vec::new();
    assert forall|t: u64| #[trigger] at_time(schedule@, t) == at_time(rest@, t) + at_time(
        sorted@,
        t,
    ) by {
        assert(at_time(rest@, t) + at_time(sorted@, t) =~= at_time(rest@, t));
    }
    while rest.len() > 0
        invariant
            is_sorted(sorted@),
            forall|t: u64| #[trigger]
                at_time(schedule@, t) == at_time(rest@, t) + at_time(sorted@, t),
        decreases rest@.len(),
    {
        let ghost (rest_before, before) = (rest@, sorted@);
        let pos = first_not_before(&sorted, rest[rest.len() - 1].timestamp.0);
        if let Some(entry) = rest.pop() {
            sorted.insert(pos, entry);
            proof {
                assert(rest_before =~= rest@.push(entry));
                assert forall|t: u64| #[trigger]
                    at_time(schedule@, t) == at_time(rest@, t) + at_time(sorted@, t) by {
                    lemma_at_time_move(rest@, before, entry, pos as int, t);
                }
            }
        }
    }
    assert forall|t: u64| #[trigger] at_time(sorted@, t) == at_time(schedule@, t) by {
        assert(at_time(rest@, t) + at_time(sorted@, t) =~= at_time(sorted@, t));
    }
    sorted
}

/// How many windows cut a link, as it is kept.
spec fn kept_cuts(cut: Map<u128, u128>, link: Link) -> int {
    let key = link_number(link) as u128;
    if cut.contains_key(key) {
        cut[key] as int
    } else {
        0
    }
}

/// Whether only links that are cut are kept.
spec fn keeps_cuts_only(cut: Map<u128, u128>) -> bool {
    forall|key: u128| #[trigger] cut.contains_key(key) ==> cut[key] > 0
}

/// Different links have different numbers.
proof fn lemma_link_numbers(a: Link, b: Link)
    ensures
        a != b ==> link_number(a) as u128 != link_number(b) as u128,
        link_number(a) <= u128::MAX,
{
    assert(link_number(a) <= u128::MAX && (link_number(a) == link_number(b) ==> a.from.0
        == b.from.0 && a.to.0 == b.to.0));
}

/// One link more in a list.
proof fn lemma_occurrences_next(links: Seq<Link>, i: int, link: Link)
    requires
        0 <= i < links.len(),
    ensures
        occurrences(links.take(i + 1), link) == occurrences(links.take(i), link) + (if links[i]
            == link {
            1nat
        } else {
            0
        }),
        occurrences(links.take(i + 1), link) <= occurrences(links, link),
    decreases links.len(),
{
    assert(links.take(i + 1).drop_last() =~= links.take(i));
    if i + 1 < links.len() {
        lemma_occurrences_next(links.drop_last(), i, link);
        assert(links.drop_last().take(i + 1) =~= links.take(i + 1));
        assert(links.drop_last().take(i) =~= links.take(i));
    } else {
        assert(links.take(i + 1) =~= links);
    }
}

/// A link stands in a list at most as often as the list has places.
proof fn lemma_occurrences_bound(links: Seq<Link>, link: Link)
    ensures
        occurrences(links, link) <= links.len(),
    decreases links.len(),
{
    if links.len() > 0 {
        lemma_occurrences_bound(links.drop_last(), link);
    }
}

/// Counts one more window for each link of a list.
fn cut_links(cut: &mut BTreeMap<u128, u128>, links: &Vec<Link>)
    requires
        keeps_cuts_only(old(cut)@),
        forall|link: Link| #[trigger]
            kept_cuts(old(cut)@, link) + occurrences(links@, link) <= u128::MAX,
    ensures
        keeps_cuts_only(final(cut)@),
        forall|link: Link| #[trigger]
            kept_cuts(final(cut)@, link) == kept_cuts(old(cut)@, link) + occurrences(links@, link),
{
    let ghost before = cut@;
    let mut i: usize = 0;
    while i < links.len()
        invariant
            i <= links@.len(),
            keeps_cuts_only(cut@),
            forall|link: Link| #[trigger]
                kept_cuts(before, link) + occurrences(links@, link) <= u128::MAX,
            forall|link: Link| #[trigger]
                kept_cuts(cut@, link) == kept_cuts(before, link) + occurrences(
                    links@.take(i as int),
                    link,
                ),
        decreases links@.len() - i,
    {
        let ghost at = cut@;
        let key = link_key(links[i]);
        proof {
            lemma_occurrences_next(links@, i as int, links@[i as int]);
            assert(kept_cuts(before, links@[i as int]) + occurrences(links@, links@[i as int])
                <= u128::MAX);
            assert(kept_cuts(at, links@[i as int]) < u128::MAX);
        }
        let count: u128 = match cut.get(&key) {
            Some(n) => *n,
            None => 0,
        };
        cut.insert(key, count + 1);
        i += 1;
        assert forall|link: Link| #[trigger]
            kept_cuts(cut@, link) == kept_cuts(before, link) + occurrences(
                links@.take(i as int),
                link,
            ) by {
            assert(kept_cuts(at, link) == kept_cuts(before, link) + occurrences(
                links@.take(i - 1),
                link,
            ));
            lemma_occurrences_next(links@, i - 1, link);
            lemma_link_numbers(link, links@[i - 1]);
        }
    }
    assert(links@.take(links@.len() as int) =~= links@);
}

/// Counts one window less for each link of a list.
fn heal_links(cut: &mut BTreeMap<u128, u128>, links: &Vec<Link>)
    requires
        keeps_cuts_only(old(cut)@),
        forall|link: Link| #[trigger] kept_cuts(old(cut)@, link) >= occurrences(links@, link),
    ensures
        keeps_cuts_only(final(cut)@),
        forall|link: Link| #[trigger]
            kept_cuts(final(cut)@, link) == kept_cuts(old(cut)@, link) - occurrences(links@, link),
{
    let ghost before = cut@;
    let mut i: usize = 0;
    while i < links.len()
        invariant
            i <= links@.len(),
            keeps_cuts_only(cut@),
            forall|link: Link| #[trigger] kept_cuts(before, link) >= occurrences(links@, link),
            forall|link: Link| #[trigger]
                kept_cuts(cut@, link) == kept_cuts(before, link) - occurrences(
                    links@.take(i as int),
                    link,
                ),
        decreases links@.len() - i,
    {
        let ghost at = cut@;
        let key = link_key(links[i]);
        proof {
            lemma_occurrences_next(links@, i as int, links@[i as int]);
            assert(kept_cuts(before, links@[i as int]) >= occurrences(links@, links@[i as int]));
            assert(kept_cuts(at, links@[i as int]) > 0);
        }
        let count: u128 = match cut.get(&key) {
            Some(n) => *n,
            None => 1,
        };
        if count == 1 {
            cut.remove(&key);
        } else {
            cut.insert(key, count - 1);
        }
        i += 1;
        assert forall|link: Link| #[trigger]
            kept_cuts(cut@, link) == kept_cuts(before, link) - occurrences(
                links@.take(i as int),
                link,
            ) by {
            assert(kept_cuts(at, link) == kept_cuts(before, link) - occurrences(
                links@.take(i - 1),
                link,
            ));
            lemma_occurrences_next(links@, i - 1, link);
            lemma_link_numbers(link, links@[i - 1]);
        }
    }
    assert(links@.take(links@.len() as int) =~= links@);
}

/// The windows that cut a link are fewer than 128 bits count.
proof fn lemma_net_bound(entries: Seq<PartitionScheduleEntry>, link: Link)
    requires
        forall|i: int| 0 <= i < entries.len() ==> (#[trigger] entries[i]).links@.len() <= usize::MAX,
    ensures
        net_cuts(entries, link) <= entries.len() * 0xffff_ffff_ffff_ffff,
    decreases entries.len(),
{
    if entries.len() > 0 {
        assert(forall|i: int|
            0 <= i < entries.drop_last().len() ==> (#[trigger] entries.drop_last()[i])
                == entries[i]);
        lemma_net_bound(entries.drop_last(), link);
        lemma_occurrences_bound(entries.last().links@, link);
    }
}

/// A schedule, how much of it has taken effect, and the links that are cut.
#[derive(Debug, Clone)]
pub struct PartitionRuntime {
    schedule: Vec<PartitionScheduleEntry>,
    cursor: usize,
    cut: BTreeMap<u128, u128>,
    is_emitter: bool,
}

impl PartitionRuntime {
    /// The schedule, in order of time.
    pub closed spec fn schedule(&self) -> Seq<PartitionScheduleEntry> {
        self.schedule@
    }

    /// How many entries have taken effect.
    pub closed spec fn applied(&self) -> nat {
        self.cursor as nat
    }

    /// Whether entries that take effect are reported.
    pub closed spec fn emits(&self) -> bool {
        self.is_emitter
    }

    /// What every runtime keeps: the schedule is in order, and each link is cut
    /// as often as the entries that have taken effect say.
    pub closed spec fn wf(&self) -> bool {
        &&& self.cursor <= self.schedule@.len()
        &&& is_sorted(self.schedule@)
        &&& keeps_cuts_only(self.cut@)
        &&& forall|link: Link| #[trigger]
            kept_cuts(self.cut@, link) == net_cuts(self.schedule@.take(self.cursor as int), link)
    }

    /// A runtime for a schedule; `None` where the schedule is empty, so that
    /// nothing is to be gated.
    pub fn new(schedule: Vec<PartitionScheduleEntry>, is_emitter: bool) -> (res: Option<Self>)
        ensures
            match res {
                Some(runtime) => {
                    &&& schedule@.len() > 0
                    &&& runtime.wf()
                    &&& is_stable_sort(schedule@, runtime.schedule())
                    &&& runtime.applied() == 0
                    &&& runtime.emits() == is_emitter
                },
                None => schedule@.len() == 0,
            },
    {
        if schedule.len() == 0 {
            return None;
        }
        let runtime = PartitionRuntime {
            schedule: sort_schedule(schedule),
            cursor: 0,
            cut: BTreeMap::new(),
            is_emitter,
        };
        Some(runtime)
    }

    /// Whether the link between two nodes may carry a message: nothing cuts it.
    pub fn is_link_active(&self, from: NodeId, to: NodeId) -> (active: bool)
        requires
            self.wf(),
        ensures
            active <==> net_cuts(
                self.schedule().take(self.applied() as int),
                (Link { from, to }),
            ) == 0,
    {
        let link = Link { from, to };
        assert(kept_cuts(self.cut@, link) == net_cuts(
            self.schedule@.take(self.cursor as int),
            link,
        ));
        proof {
            lemma_link_numbers(link, link);
        }
        self.cut.is_empty() || !self.cut.contains_key(&link_key(link))
    }

    /// The instant of the next entry that has not taken effect.
    pub fn next_event_time(&self) -> (res: Option<Timestamp>)
        requires
            self.wf(),
        ensures
            res == (if self.applied() < self.schedule().len() {
                Some(self.schedule()[self.applied() as int].timestamp)
            } else {
                None
            }),
    {
        if self.cursor < self.schedule.len() {
            Some(self.schedule[self.cursor].timestamp)
        } else {
            None
        }
    }

    /// Lets every entry up to `now` take effect, each once, and reports them
    /// where the runtime reports. No entry up to `now` may heal a link that is
    /// not cut.
    pub fn advance_to(&mut self, now: Timestamp) -> (events: Vec<PartitionEvent>)
        requires
            old(self).wf(),
            heals_cuts_only(
                old(self).schedule(),
                due(old(self).schedule(), old(self).applied(), now.0),
            ),
        ensures
            final(self).wf(),
            final(self).schedule() == old(self).schedule(),
            final(self).emits() == old(self).emits(),
            final(self).applied() == due(old(self).schedule(), old(self).applied(), now.0),
            events@.len() == (if old(self).emits() {
                final(self).applied() - old(self).applied()
            } else {
                0
            }),
            forall|k: int|
                0 <= k < events@.len() ==> reports(
                    #[trigger] events@[k],
                    old(self).schedule()[old(self).applied() + k],
                ),
    {
        let mut events: Vec<PartitionEvent> = Vec::new();
        let ghost start = self.cursor as nat;
        let ghost end = due(self.schedule@, start, now.0);
        while self.cursor < self.schedule.len() && self.schedule[self.cursor].timestamp.0 <= now.0
            invariant
                self.wf(),
                self.schedule == old(self).schedule,
                self.is_emitter == old(self).is_emitter,
                start == old(self).cursor,
                start <= self.cursor,
                end == due(self.schedule@, self.cursor as nat, now.0),
                heals_cuts_only(self.schedule@, end),
                events@.len() == (if self.is_emitter {
                    self.cursor - start
                } else {
                    0
                }),
                forall|k: int|
                    0 <= k < events@.len() ==> reports(
                        #[trigger] events@[k],
                        self.schedule@[start + k],
                    ),
            decreases self.schedule@.len() - self.cursor,
        {
            let ghost cut_before = self.cut@;
            let ghost taken = self.schedule@.take(self.cursor as int);
            let ghost entry = self.schedule@[self.cursor as int];
            proof {
                assert(self.schedule@.take(self.cursor + 1).drop_last() =~= taken);
                assert(self.schedule@.take(self.cursor + 1).last() == entry);
                lemma_due_grows(self.schedule@, (self.cursor + 1) as nat, now.0);
            }
            match self.schedule[self.cursor].op {
                PartitionOp::Activate => {
                    proof {
                        lemma_cut_fits(self.schedule, self.cursor, self.cut@);
                    }
                    cut_links(&mut self.cut, &self.schedule[self.cursor].links);
                    if self.is_emitter {
                        let entry = &self.schedule[self.cursor];
                        let links = entry.links.clone();
                        assert(links@ =~= entry.links@);
                        events.push(
                            PartitionEvent::Started {
                                scenario_name: entry.scenario_name.clone(),
                                links,
                            },
                        );
                    }
                },
                PartitionOp::Heal => {
                    assert forall|link: Link| #[trigger]
                        kept_cuts(self.cut@, link) >= occurrences(entry.links@, link) by {
                        assert(net_cuts(self.schedule@.take(self.cursor + 1), link) >= 0);
                    }
                    heal_links(&mut self.cut, &self.schedule[self.cursor].links);
                    if self.is_emitter {
                        let entry = &self.schedule[self.cursor];
                        events.push(
                            PartitionEvent::Healed {
                                scenario_name: entry.scenario_name.clone(),
                                link_count: entry.links.len(),
                            },
                        );
                    }
                },
            }
            self.cursor += 1;
            assert forall|link: Link| #[trigger]
                kept_cuts(self.cut@, link) == net_cuts(
                    self.schedule@.take(self.cursor as int),
                    link,
                ) by {
                assert(kept_cuts(cut_before, link) == net_cuts(taken, link));
            }
        }
        events
    }
}

/// Entries never leave effect again.
proof fn lemma_due_grows(entries: Seq<PartitionScheduleEntry>, done: nat, now: u64)
    ensures
        due(entries, done, now) >= done,
    decreases entries.len() - done,
{
    if done < entries.len() && entries[done as int].timestamp.0 <= now {
        lemma_due_grows(entries, done + 1, now);
    }
}

/// One entry more cannot exceed what 128 bits count.
proof fn lemma_cut_fits(
    schedule: Vec<PartitionScheduleEntry>,
    cursor: usize,
    cut: Map<u128, u128>,
)
    requires
        cursor < schedule@.len(),
        forall|link: Link| #[trigger]
            kept_cuts(cut, link) == net_cuts(schedule@.take(cursor as int), link),
    ensures
        forall|link: Link| #[trigger]
            kept_cuts(cut, link) + occurrences(schedule@[cursor as int].links@, link) <= u128::MAX,
{
    let entries = schedule@.take(cursor as int);
    assert forall|i: int| 0 <= i < schedule@.len() implies (#[trigger] schedule@[i]).links@.len()
        <= usize::MAX by {
        assert(schedule@[i].links.len() == schedule@[i].links@.len());
    }
    assert(forall|i: int| 0 <= i < entries.len() ==> #[trigger] entries[i] == schedule@[i]);
    assert forall|link: Link| #[trigger]
        kept_cuts(cut, link) + occurrences(schedule@[cursor as int].links@, link) <= u128::MAX by {
        lemma_net_bound(entries, link);
        lemma_occurrences_bound(schedule@[cursor as int].links@, link);
        assert(cursor * 0xffff_ffff_ffff_ffff + 0xffff_ffff_ffff_ffff <= u128::MAX)
            by (nonlinear_arith)
            requires
                cursor <= 0xffff_ffff_ffff_ffff,
        ;
    }
}

/// Letting time pass in two steps lets the same entries take effect as letting
/// it pass in one; a second step to the same instant lets none.
pub proof fn law_advance_in_steps(
    entries: Seq<PartitionScheduleEntry>,
    done: nat,
    first: u64,
    second: u64,
)
    requires
        first <= second,
    ensures
        due(entries, due(entries, done, first), second) == due(entries, done, second),
    decreases entries.len() - done,
{
    if done < entries.len() && entries[done as int].timestamp.0 <= first {
        law_advance_in_steps(entries, done + 1, first, second);
    }
}

/// Exactly the entries up to the instant have taken effect, besides those that
/// had before.
pub proof fn law_due_is_all_up_to_now(
    entries: Seq<PartitionScheduleEntry>,
    done: nat,
    now: u64,
    i: int,
)
    requires
        is_sorted(entries),
        done <= entries.len(),
        0 <= i < entries.len(),
    ensures
        i < due(entries, done, now) <==> i < done || entries[i].timestamp.0 <= now,
    decreases entries.len() - done,
{
    if done < entries.len() && entries[done as int].timestamp.0 <= now {
        law_due_is_all_up_to_now(entries, done + 1, now, i);
    }
}

/// Whether each heal among the entries mirrors an activation of the same links
/// at an earlier instant, no two the same one: `partner` gives the activation.
pub open spec fn heals_mirror(
    entries: Seq<PartitionScheduleEntry>,
    partner: spec_fn(int) -> int,
) -> bool {
    &&& forall|i: int|
        0 <= i < entries.len() && entries[i].op is Heal ==> {
            &&& 0 <= #[trigger] partner(i) < entries.len()
            &&& entries[partner(i)].op is Activate
            &&& entries[partner(i)].links@ == entries[i].links@
            &&& entries[partner(i)].timestamp.0 < entries[i].timestamp.0
        }
    &&& forall|i: int, j: int|
        0 <= i < j < entries.len() && entries[i].op is Heal && entries[j].op is Heal
            ==> #[trigger] partner(i) != #[trigger] partner(j)
}

/// In a schedule whose heals mirror earlier activations, no link is ever healed
/// that is not cut: the whole schedule can be advanced through.
pub proof fn law_mirrored_schedule_heals_cuts_only(
    given: Seq<PartitionScheduleEntry>,
    sorted: Seq<PartitionScheduleEntry>,
    partner: spec_fn(int) -> int,
)
    requires
        heals_mirror(given, partner),
        is_stable_sort(given, sorted),
    ensures
        heals_cuts_only(sorted, sorted.len()),
{
    assert forall|k: int, link: Link| 0 <= k <= sorted.len() implies #[trigger] net_cuts(
        sorted.take(k),
        link,
    ) >= 0 by {
        if k > 0 {
            let t = sorted[k - 1].timestamp.0;
            let w = |e: PartitionScheduleEntry| least_effect(e, link, t);
            lemma_prefix_effect(sorted, k, link, t, k);
            lemma_tail_effect(sorted, k, link, t, sorted.len() as int);
            assert(sorted.take(sorted.len() as int) =~= sorted);
            lemma_sum_same(given, sorted, w);
            lemma_mirrored_sum(given, partner, link, t, given.len());
            lemma_used_within(given, partner, link, t);
            lemma_least_split(given, link, t, given.len());
            assert(given.take(given.len() as int) =~= given);
        }
    }
}

/// A sum over entries.
spec fn sum_over(entries: Seq<PartitionScheduleEntry>, w: spec_fn(PartitionScheduleEntry) -> int) -> int
    decreases entries.len(),
{
    if entries.len() == 0 {
        0
    } else {
        sum_over(entries.drop_last(), w) + w(entries.last())
    }
}

/// The least that an entry does to a link up to some moment of the instant `t`:
/// heals of the instant count, its activations do not, later entries do not.
spec fn least_effect(entry: PartitionScheduleEntry, link: Link, t: u64) -> int {
    if entry.op is Activate && entry.timestamp.0 < t {
        occurrences(entry.links@, link) as int
    } else if entry.op is Heal && entry.timestamp.0 <= t {
        -occurrences(entry.links@, link)
    } else {
        0
    }
}

proof fn lemma_sum_concat(
    a: Seq<PartitionScheduleEntry>,
    b: Seq<PartitionScheduleEntry>,
    w: spec_fn(PartitionScheduleEntry) -> int,
)
    ensures
        sum_over(a + b, w) == sum_over(a, w) + sum_over(b, w),
    decreases b.len(),
{
    if b.len() == 0 {
        assert(a + b =~= a);
    } else {
        assert((a + b).drop_last() =~= a + b.drop_last());
        lemma_sum_concat(a, b.drop_last(), w);
    }
}

/// Where the last entry of an instant stands.
proof fn lemma_last_of_instant(b: Seq<PartitionScheduleEntry>, t: u64) -> (p: int)
    requires
        at_time(b, t).len() > 0,
    ensures
        0 <= p < b.len(),
        b[p] == at_time(b, t).last(),
        b[p].timestamp.0 == t,
        forall|i: int| p < i < b.len() ==> (#[trigger] b[i]).timestamp.0 != t,
    decreases b.len(),
{
    if b.last().timestamp.0 == t {
        b.len() - 1
    } else {
        let p = lemma_last_of_instant(b.drop_last(), t);
        assert(forall|i: int| 0 <= i < b.len() - 1 ==> #[trigger] b[i] == b.drop_last()[i]);
        p
    }
}

/// Lists with the same entries at each instant have the same sums.
proof fn lemma_sum_same(
    a: Seq<PartitionScheduleEntry>,
    b: Seq<PartitionScheduleEntry>,
    w: spec_fn(PartitionScheduleEntry) -> int,
)
    requires
        forall|t: u64| #[trigger] at_time(b, t) == at_time(a, t),
    ensures
        sum_over(a, w) == sum_over(b, w),
    decreases a.len(),
{
    if a.len() == 0 {
        if b.len() > 0 {
            let t = b.last().timestamp.0;
            assert(at_time(b, t).len() > 0);
            assert(at_time(a, t).len() == 0);
        }
    } else {
        let e = a.last();
        let t = e.timestamp.0;
        let p = lemma_last_of_instant(b, t);
        let (x, y) = (b.take(p), b.skip(p + 1));
        let one = seq![e];
        assert(b =~= (x + one) + y);
        lemma_sum_concat(x + one, y, w);
        lemma_sum_concat(x, one, w);
        lemma_sum_concat(x, y, w);
        assert(one.drop_last() =~= Seq::<PartitionScheduleEntry>::empty());
        assert(sum_over(one.drop_last(), w) == 0);
        assert forall|u: u64| #[trigger] at_time(x + y, u) == at_time(a.drop_last(), u) by {
            assert(at_time(b, u) == at_time(a, u));
            lemma_at_time_concat(x + one, y, u);
            lemma_at_time_concat(x, one, u);
            lemma_at_time_concat(x, y, u);
            assert(at_time(one.drop_last(), u) =~= Seq::<PartitionScheduleEntry>::empty());
            if u == t {
                assert(forall|i: int| 0 <= i < y.len() ==> #[trigger] y[i] == b[p + 1 + i]);
                lemma_at_time_none(y, u);
                assert(at_time(b, u) =~= at_time(x, u).push(e));
                assert(at_time(x + y, u) =~= at_time(x, u));
                assert(at_time(b, u).drop_last() =~= at_time(x, u));
                assert(at_time(a, u).drop_last() =~= at_time(a.drop_last(), u));
            } else {
                assert(at_time(x + y, u) =~= at_time(b, u));
            }
        }
        lemma_sum_same(a.drop_last(), x + y, w);
    }
}

/// Up to an entry of the instant, each entry does at least the least.
proof fn lemma_prefix_effect(
    sorted: Seq<PartitionScheduleEntry>,
    k: int,
    link: Link,
    t: u64,
    n: int,
)
    requires
        is_sorted(sorted),
        0 < k <= sorted.len(),
        t == sorted[k - 1].timestamp.0,
        0 <= n <= k,
    ensures
        net_cuts(sorted.take(n), link) >= sum_over(
            sorted.take(n),
            |e: PartitionScheduleEntry| least_effect(e, link, t),
        ),
    decreases n,
{
    if n > 0 {
        lemma_prefix_effect(sorted, k, link, t, n - 1);
        assert(sorted.take(n).drop_last() =~= sorted.take(n - 1));
        assert(sorted[n - 1].timestamp.0 <= sorted[k - 1].timestamp.0);
    }
}

/// After an entry of the instant, the least is not above zero.
proof fn lemma_tail_effect(
    sorted: Seq<PartitionScheduleEntry>,
    k: int,
    link: Link,
    t: u64,
    n: int,
)
    requires
        is_sorted(sorted),
        0 < k <= n <= sorted.len(),
        t == sorted[k - 1].timestamp.0,
    ensures
        sum_over(sorted.take(n), |e: PartitionScheduleEntry| least_effect(e, link, t)) <= sum_over(
            sorted.take(k),
            |e: PartitionScheduleEntry| least_effect(e, link, t),
        ),
    decreases n,
{
    if n > k {
        lemma_tail_effect(sorted, k, link, t, n - 1);
        assert(sorted.take(n).drop_last() =~= sorted.take(n - 1));
        assert(sorted[k - 1].timestamp.0 <= sorted[n - 1].timestamp.0);
    }
}

/// How often a link stands in the first `n` entries that are in a set.
spec fn occurrences_among(
    entries: Seq<PartitionScheduleEntry>,
    places: Set<int>,
    link: Link,
    n: nat,
) -> nat
    decreases n,
{
    if n == 0 {
        0
    } else {
        occurrences_among(entries, places, link, (n - 1) as nat) + if places.contains(n - 1) {
            occurrences(entries[n - 1].links@, link)
        } else {
            0
        }
    }
}

/// The places of the heals up to the instant.
spec fn heals_up_to(entries: Seq<PartitionScheduleEntry>, t: u64) -> Set<int> {
    Set::new(
        |i: int|
            0 <= i < entries.len() && entries[i].op is Heal && entries[i].timestamp.0 <= t,
    )
}

/// The places of the activations before the instant.
spec fn activations_before(entries: Seq<PartitionScheduleEntry>, t: u64) -> Set<int> {
    Set::new(
        |i: int|
            0 <= i < entries.len() && entries[i].op is Activate && entries[i].timestamp.0 < t,
    )
}

/// The activations that the heals up to the instant mirror, of the first `n`
/// entries.
spec fn mirrored_by(
    entries: Seq<PartitionScheduleEntry>,
    partner: spec_fn(int) -> int,
    t: u64,
    n: nat,
) -> Set<int>
    decreases n,
{
    if n == 0 {
        Set::empty()
    } else if heals_up_to(entries, t).contains(n - 1) {
        mirrored_by(entries, partner, t, (n - 1) as nat).insert(partner(n - 1))
    } else {
        mirrored_by(entries, partner, t, (n - 1) as nat)
    }
}

proof fn lemma_among_insert(
    entries: Seq<PartitionScheduleEntry>,
    places: Set<int>,
    link: Link,
    x: int,
    n: nat,
)
    requires
        !places.contains(x),
    ensures
        occurrences_among(entries, places.insert(x), link, n) == occurrences_among(
            entries,
            places,
            link,
            n,
        ) + (if 0 <= x < n {
            occurrences(entries[x].links@, link)
        } else {
            0
        }),
    decreases n,
{
    if n > 0 {
        lemma_among_insert(entries, places, link, x, (n - 1) as nat);
    }
}

proof fn lemma_among_subset(
    entries: Seq<PartitionScheduleEntry>,
    a: Set<int>,
    b: Set<int>,
    link: Link,
    n: nat,
)
    requires
        a.subset_of(b),
    ensures
        occurrences_among(entries, a, link, n) <= occurrences_among(entries, b, link, n),
    decreases n,
{
    if n > 0 {
        lemma_among_subset(entries, a, b, link, (n - 1) as nat);
    }
}

proof fn lemma_among_none(entries: Seq<PartitionScheduleEntry>, link: Link, n: nat)
    ensures
        occurrences_among(entries, Set::empty(), link, n) == 0,
    decreases n,
{
    if n > 0 {
        lemma_among_none(entries, link, (n - 1) as nat);
    }
}

/// Every mirrored activation is the partner of a heal, and comes before the
/// instant.
proof fn lemma_mirrored_members(
    entries: Seq<PartitionScheduleEntry>,
    partner: spec_fn(int) -> int,
    t: u64,
    n: nat,
    x: int,
)
    requires
        heals_mirror(entries, partner),
        n <= entries.len(),
        mirrored_by(entries, partner, t, n).contains(x),
    ensures
        activations_before(entries, t).contains(x),
        exists|i: int| 0 <= i < n && entries[i].op is Heal && #[trigger] partner(i) == x,
    decreases n,
{
    if n > 0 {
        if heals_up_to(entries, t).contains(n - 1) && partner(n - 1) == x {
            assert(entries[n - 1].op is Heal);
        } else {
            lemma_mirrored_members(entries, partner, t, (n - 1) as nat, x);
        }
    }
}

/// The heals up to the instant name a link as often as the activations that they
/// mirror.
proof fn lemma_mirrored_sum(
    entries: Seq<PartitionScheduleEntry>,
    partner: spec_fn(int) -> int,
    link: Link,
    t: u64,
    n: nat,
)
    requires
        heals_mirror(entries, partner),
        n <= entries.len(),
    ensures
        occurrences_among(entries, heals_up_to(entries, t), link, n) == occurrences_among(
            entries,
            mirrored_by(entries, partner, t, n),
            link,
            entries.len(),
        ),
    decreases n,
{
    if n == 0 {
        lemma_among_none(entries, link, entries.len());
    } else {
        lemma_mirrored_sum(entries, partner, link, t, (n - 1) as nat);
        if heals_up_to(entries, t).contains(n - 1) {
            let before = mirrored_by(entries, partner, t, (n - 1) as nat);
            let x = partner(n - 1);
            assert(entries[n - 1].op is Heal);
            if before.contains(x) {
                lemma_mirrored_members(entries, partner, t, (n - 1) as nat, x);
            }
            lemma_among_insert(entries, before, link, x, entries.len());
        }
    }
}

/// The mirrored activations name a link at most as often as all activations
/// before the instant.
proof fn lemma_used_within(
    entries: Seq<PartitionScheduleEntry>,
    partner: spec_fn(int) -> int,
    link: Link,
    t: u64,
)
    requires
        heals_mirror(entries, partner),
    ensures
        occurrences_among(
            entries,
            mirrored_by(entries, partner, t, entries.len()),
            link,
            entries.len(),
        ) <= occurrences_among(entries, activations_before(entries, t), link, entries.len()),
{
    let used = mirrored_by(entries, partner, t, entries.len());
    assert forall|x: int| used.contains(x) implies activations_before(entries, t).contains(x) by {
        lemma_mirrored_members(entries, partner, t, entries.len(), x);
    }
    lemma_among_subset(entries, used, activations_before(entries, t), link, entries.len());
}

/// The least effect of all entries is what activations add and heals take.
proof fn lemma_least_split(entries: Seq<PartitionScheduleEntry>, link: Link, t: u64, n: nat)
    requires
        n <= entries.len(),
    ensures
        sum_over(entries.take(n as int), |e: PartitionScheduleEntry| least_effect(e, link, t))
            == occurrences_among(entries, activations_before(entries, t), link, n)
            - occurrences_among(entries, heals_up_to(entries, t), link, n),
    decreases n,
{
    if n > 0 {
        lemma_least_split(entries, link, t, (n - 1) as nat);
        assert(entries.take(n as int).drop_last() =~= entries.take(n - 1));
    }
}

} // verus!
