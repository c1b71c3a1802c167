//! Which links a schedule cuts.

use crate::partition::{
    at_time, due, is_stable_sort, net_cuts, occurrences, reports, Link, PartitionEvent,
    PartitionOp, PartitionScheduleEntry,
};
use vstd::prelude::*;

verus! {

/// How often a link stands in a list: the number of its places.
pub proof fn law_every_place_of_a_link_counts(links: Seq<Link>, next: Link, link: Link)
    ensures
        occurrences(Seq::<Link>::empty(), link) == 0,
        occurrences(links.push(next), link) == occurrences(links, link) + (if next == link {
            1int
        } else {
            0
        }),
{
    assert(links.push(next).drop_last() =~= links);
}

/// Before any entry no link is cut. An entry that activates a partition cuts each
/// of its links once more for each place that the link has in it; one that heals
/// takes as many cuts away. It does nothing to other links.
pub proof fn law_cuts_add_up(
    entries: Seq<PartitionScheduleEntry>,
    entry: PartitionScheduleEntry,
    link: Link,
)
    ensures
        net_cuts(Seq::<PartitionScheduleEntry>::empty(), link) == 0,
        entry.op == PartitionOp::Activate ==> net_cuts(entries.push(entry), link) == net_cuts(
            entries,
            link,
        ) + occurrences(entry.links@, link),
        entry.op == PartitionOp::Heal ==> net_cuts(entries.push(entry), link) == net_cuts(
            entries,
            link,
        ) - occurrences(entry.links@, link),
        !entry.links@.contains(link) ==> net_cuts(entries.push(entry), link) == net_cuts(
            entries,
            link,
        ),
{
    assert(entries.push(entry).drop_last() =~= entries);
    if !entry.links@.contains(link) {
        lemma_no_occurrence(entry.links@, link);
    }
}

/// A link that a list does not hold has no place in it.
proof fn lemma_no_occurrence(links: Seq<Link>, link: Link)
    requires
        !links.contains(link),
    ensures
        occurrences(links, link) == 0,
    decreases links.len(),
{
    if links.len() > 0 {
        assert(links.contains(links.last()));
        assert forall|k: int| 0 <= k < links.drop_last().len() implies links.drop_last()[k]
            != link by {
            assert(links.contains(links[k]));
        }
        lemma_no_occurrence(links.drop_last(), link);
    }
}

/// A partition that is healed as it was activated leaves every link as it was,
/// whatever else is cut.
pub proof fn law_healing_undoes_activation(
    entries: Seq<PartitionScheduleEntry>,
    start: PartitionScheduleEntry,
    end: PartitionScheduleEntry,
    link: Link,
)
    requires
        start.op == PartitionOp::Activate,
        end.op == PartitionOp::Heal,
        start.links@ == end.links@,
    ensures
        net_cuts(entries.push(start).push(end), link) == net_cuts(entries, link),
{
    law_cuts_add_up(entries, start, link);
    law_cuts_add_up(entries.push(start), end, link);
}

/// A schedule is brought in order of time. The entries of each instant are the
/// same before and after, in the same order.
pub proof fn law_schedule_is_sorted_by_time(
    given: Seq<PartitionScheduleEntry>,
    sorted: Seq<PartitionScheduleEntry>,
    i: int,
    j: int,
    t: u64,
)
    requires
        is_stable_sort(given, sorted),
        0 <= i <= j < sorted.len(),
    ensures
        sorted[i].timestamp.0 <= sorted[j].timestamp.0,
        sorted.filter(|e: PartitionScheduleEntry| e.timestamp.0 == t) == given.filter(
            |e: PartitionScheduleEntry| e.timestamp.0 == t,
        ),
{
    lemma_at_time_filters(given, t);
    lemma_at_time_filters(sorted, t);
    assert(at_time(sorted, t) == at_time(given, t));
}

/// The entries of an instant are those with its time.
proof fn lemma_at_time_filters(entries: Seq<PartitionScheduleEntry>, t: u64)
    ensures
        at_time(entries, t) == entries.filter(
            |e: PartitionScheduleEntry| e.timestamp.0 == t,
        ),
    decreases entries.len(),
{
    reveal(Seq::filter);
    if entries.len() > 0 {
        lemma_at_time_filters(entries.drop_last(), t);
    }
}

/// An event says what took effect: the start of a partition with its name and all
/// its links, or its end with its name and how many links there are.
pub proof fn law_event_says_what_took_effect(event: PartitionEvent, entry: PartitionScheduleEntry)
    requires
        reports(event, entry),
    ensures
        entry.op == PartitionOp::Activate ==> {
            &&& event is Started
            &&& event->Started_scenario_name@ == entry.scenario_name@
            &&& event->Started_links@ == entry.links@
        },
        entry.op == PartitionOp::Heal ==> {
            &&& event is Healed
            &&& event->Healed_scenario_name@ == entry.scenario_name@
            &&& event->Healed_link_count == entry.links@.len()
        },
{
}

/// Of entries in order of time, exactly those up to the present instant have
/// taken effect, besides those that had before; none is passed over.
pub proof fn law_no_due_entry_waits(
    entries: Seq<PartitionScheduleEntry>,
    done: nat,
    now: u64,
    i: int,
)
    requires
        forall|a: int, b: int|
            0 <= a <= b < entries.len() ==> (#[trigger] entries[a]).timestamp.0 <= (
            #[trigger] entries[b]).timestamp.0,
        done <= entries.len(),
        0 <= i < entries.len(),
    ensures
        done <= due(entries, done, now) <= entries.len(),
        i < due(entries, done, now) <==> i < done || entries[i].timestamp.0 <= now,
    decreases entries.len() - done,
{
    if done < entries.len() && entries[done as int].timestamp.0 <= now {
        law_no_due_entry_waits(entries, done + 1, now, i);
    }
}

} // verus!
