//! The order in which the handlers of an event run: by falling priority,
//! and among handlers of one priority in the order in which they were
//! found.

use vstd::prelude::*;
use crate::declaration::{descriptor_views, DescriptorView, HandlerDescriptor};

verus! {

/// Whether a handler is one of the event `event_name`.
pub open spec fn for_event(event_name: Seq<char>) -> spec_fn(DescriptorView) -> bool {
    |descriptor: DescriptorView| descriptor.event_name == event_name
}

/// Whether a handler has the priority `priority`.
pub open spec fn with_priority(priority: u8) -> spec_fn(DescriptorView) -> bool {
    |descriptor: DescriptorView| descriptor.priority == priority
}

/// Whether no handler stands before one of a higher priority.
pub open spec fn non_increasing(handlers: Seq<DescriptorView>) -> bool {
    forall|i: int, j: int|
        0 <= i < j < handlers.len() ==> handlers[i].priority >= handlers[j].priority
}

/// The handlers of `found` whose priority is `floor` or higher, in the
/// order in which they run.
pub open spec fn from_priority(found: Seq<DescriptorView>, floor: int) -> Seq<DescriptorView>
    decreases 256 - floor,
{
    if floor > 255 {
        Seq::empty()
    } else {
        from_priority(found, floor + 1) + found.filter(with_priority(floor as u8))
    }
}

/// The handlers of `found` in the order in which they run: those of
/// priority 255 first and those of priority 0 last, and those of one
/// priority in the order in which they were found.
pub open spec fn running_order(found: Seq<DescriptorView>) -> Seq<DescriptorView> {
    from_priority(found, 0)
}

/// Whether `ordered` holds the handlers of `found` in the order in which
/// they run: by falling priority, and those of one priority in the order
/// in which they were found.
pub open spec fn stable_by_priority(ordered: Seq<DescriptorView>, found: Seq<DescriptorView>) -> bool {
    &&& non_increasing(ordered)
    &&& forall|priority: u8| #[trigger]
        ordered.filter(with_priority(priority)) == found.filter(with_priority(priority))
}

/// The key by which handlers are sorted, smallest first.
pub fn sort_key(priority: u8) -> (key: u8)
    ensures
        key == 255 - priority,
{
    255 - priority
}

/// Puts handlers into the order in which they run.
pub fn sort_by_priority(found: &Vec<HandlerDescriptor>) -> (sorted: Vec<HandlerDescriptor>)
    ensures
        descriptor_views(sorted@) == running_order(descriptor_views(found@)),
{
    let ghost given = descriptor_views(found@);
    let mut sorted: Vec<HandlerDescriptor> = Vec::new();
    let mut i: usize = 0;
    proof {
        assert(given.take(0) =~= Seq::<DescriptorView>::empty());
        assert(descriptor_views(sorted@) =~= Seq::<DescriptorView>::empty());
    }
    while i < found.len()
        invariant
            i <= found.len(),
            given == descriptor_views(found@),
            stable_by_priority(descriptor_views(sorted@), given.take(i as int)),
        decreases found.len() - i,
    {
        let descriptor = found[i].clone();
        let key = sort_key(descriptor.priority);
        let ghost before = descriptor_views(sorted@);
        let mut at: usize = 0;
        while at < sorted.len() && sort_key(sorted[at].priority) <= key
            invariant
                at <= sorted.len(),
                key == 255 - descriptor.priority,
                before == descriptor_views(sorted@),
                forall|k: int| 0 <= k < at ==> before[k].priority >= descriptor.priority,
            decreases sorted.len() - at,
        {
            at += 1;
        }
        sorted.insert(at, descriptor);
        proof {
            assert(descriptor_views(sorted@) =~= before.insert(at as int, descriptor@));
            assert(given.take(i as int + 1) =~= given.take(i as int).push(descriptor@));
            lemma_insert_in_order(before, given.take(i as int), descriptor@, at as int);
        }
        i += 1;
    }
    proof {
        assert(given.take(i as int) =~= given);
        lemma_stable_is_running_order(descriptor_views(sorted@), given);
    }
    sorted
}

/// The running order holds the handlers that were found, by falling
/// priority, and those of one priority in the order in which they were
/// found.
pub proof fn lemma_running_order_is_stable(found: Seq<DescriptorView>)
    ensures
        stable_by_priority(running_order(found), found),
{
    lemma_from_priority(found, 0);
}

/// No other list does: the running order is the one list that holds the
/// handlers that were found, by falling priority and those of one priority
/// in the order in which they were found.
pub proof fn lemma_stable_is_running_order(ordered: Seq<DescriptorView>, found: Seq<DescriptorView>)
    requires
        stable_by_priority(ordered, found),
    ensures
        ordered == running_order(found),
{
    lemma_running_order_is_stable(found);
    lemma_running_order_unique(ordered, running_order(found), found);
}

/// Handlers run by falling priority, and of two handlers with the same
/// priority the one that was found first runs first.
pub proof fn lemma_higher_priority_runs_first(found: Seq<DescriptorView>, earlier: int, later: int)
    requires
        0 <= earlier < later < running_order(found).len(),
    ensures
        running_order(found)[earlier].priority >= running_order(found)[later].priority,
        running_order(found)[earlier].priority == running_order(found)[later].priority
            ==> exists|a: int, b: int|
            0 <= a < b < found.len() && found[a] == running_order(found)[earlier] && found[b]
                == running_order(found)[later],
{
    lemma_running_order_is_stable(found);
    lemma_ties_as_found(running_order(found), found, earlier, later);
}

/// The running order holds every handler that was found as often as it
/// was found, and no other.
pub proof fn lemma_running_order_is_permutation(found: Seq<DescriptorView>)
    ensures
        running_order(found).to_multiset() == found.to_multiset(),
        running_order(found).len() == found.len(),
    decreases found.len(),
{
    broadcast use vstd::seq_lib::group_to_multiset_ensures;

    if found.len() == 0 {
        let nothing = Seq::<DescriptorView>::empty();
        assert(found =~= nothing);
        assert(stable_by_priority(nothing, found));
        lemma_stable_is_running_order(nothing, found);
    } else {
        let front = found.drop_last();
        let last = found.last();
        assert(found =~= front.push(last));
        lemma_running_order_is_permutation(front);
        lemma_running_order_is_stable(front);
        let ordered = running_order(front);
        let at = insertion_point(ordered, last.priority);
        lemma_insertion_point(ordered, last.priority);
        lemma_insert_in_order(ordered, front, last, at);
        lemma_stable_is_running_order(ordered.insert(at, last), found);
        vstd::seq_lib::to_multiset_insert(ordered, at, last);
        vstd::seq_lib::to_multiset_build(front, last);
    }
}

/// The running order of the handlers of one event is what is left of the
/// running order of all handlers where only those of the event are kept.
pub proof fn lemma_running_order_within_event(found: Seq<DescriptorView>, event_name: Seq<char>)
    ensures
        running_order(found).filter(for_event(event_name)) == running_order(
            found.filter(for_event(event_name)),
        ),
{
    lemma_running_order_is_stable(found);
    lemma_stable_within_event(running_order(found), found, event_name);
    lemma_stable_is_running_order(
        running_order(found).filter(for_event(event_name)),
        found.filter(for_event(event_name)),
    );
}

/// Filtering a list with one more handler at its end.
pub(crate) proof fn lemma_filter_push(
    handlers: Seq<DescriptorView>,
    last: DescriptorView,
    keep: spec_fn(DescriptorView) -> bool,
)
    ensures
        handlers.push(last).filter(keep) == if keep(last) {
            handlers.filter(keep).push(last)
        } else {
            handlers.filter(keep)
        },
{
    reveal(Seq::filter);
    assert(handlers.push(last).drop_last() =~= handlers);
}

/// Filtering by two tests gives the same list whichever comes first.
proof fn lemma_filter_commutes(
    handlers: Seq<DescriptorView>,
    first: spec_fn(DescriptorView) -> bool,
    second: spec_fn(DescriptorView) -> bool,
)
    ensures
        handlers.filter(first).filter(second) == handlers.filter(second).filter(first),
    decreases handlers.len(),
{
    if handlers.len() == 0 {
        reveal(Seq::filter);
    } else {
        let front = handlers.drop_last();
        let last = handlers.last();
        assert(handlers =~= front.push(last));
        lemma_filter_commutes(front, first, second);
        lemma_filter_push(front, last, first);
        lemma_filter_push(front, last, second);
        lemma_filter_push(front.filter(first), last, second);
        lemma_filter_push(front.filter(second), last, first);
    }
}

/// Filtering again by the same test changes nothing.
proof fn lemma_filter_twice(handlers: Seq<DescriptorView>, keep: spec_fn(DescriptorView) -> bool)
    ensures
        handlers.filter(keep).filter(keep) == handlers.filter(keep),
    decreases handlers.len(),
{
    if handlers.len() == 0 {
        reveal(Seq::filter);
    } else {
        let front = handlers.drop_last();
        let last = handlers.last();
        assert(handlers =~= front.push(last));
        lemma_filter_twice(front, keep);
        lemma_filter_push(front, last, keep);
        lemma_filter_push(front.filter(keep), last, keep);
    }
}

/// A part of a list in running order is in running order.
pub(crate) proof fn lemma_filter_non_increasing(
    handlers: Seq<DescriptorView>,
    keep: spec_fn(DescriptorView) -> bool,
)
    requires
        non_increasing(handlers),
    ensures
        non_increasing(handlers.filter(keep)),
    decreases handlers.len(),
{
    if handlers.len() == 0 {
        reveal(Seq::filter);
    } else {
        let front = handlers.drop_last();
        let last = handlers.last();
        assert(handlers =~= front.push(last));
        assert(non_increasing(front));
        lemma_filter_non_increasing(front, keep);
        lemma_filter_push(front, last, keep);
        let kept = front.filter(keep);
        assert forall|k: int| 0 <= k < kept.len() implies kept[k].priority >= last.priority by {
            front.lemma_filter_contains_rev(keep, kept[k]);
            let at = choose|at: int| 0 <= at < front.len() && front[at] == kept[k];
            assert(handlers[at] == front[at]);
        }
    }
}

/// Putting a handler behind all that run no later, and before all that
/// run later, keeps a list in running order.
proof fn lemma_insert_in_order(
    ordered: Seq<DescriptorView>,
    found: Seq<DescriptorView>,
    next: DescriptorView,
    at: int,
)
    requires
        stable_by_priority(ordered, found),
        0 <= at <= ordered.len(),
        forall|k: int| 0 <= k < at ==> ordered[k].priority >= next.priority,
        at < ordered.len() ==> ordered[at].priority < next.priority,
    ensures
        stable_by_priority(ordered.insert(at, next), found.push(next)),
{
    let grown = ordered.insert(at, next);
    assert(non_increasing(grown));
    assert forall|priority: u8| #[trigger]
        grown.filter(with_priority(priority)) == found.push(next).filter(
            with_priority(priority),
        ) by {
        let keep = with_priority(priority);
        let front = ordered.take(at);
        let back = ordered.skip(at);
        assert(ordered =~= front + back);
        assert(grown =~= front.push(next) + back);
        Seq::filter_distributes_over_add(front, back, keep);
        Seq::filter_distributes_over_add(front.push(next), back, keep);
        lemma_filter_push(front, next, keep);
        lemma_filter_push(found, next, keep);
        assert(ordered.filter(keep) == found.filter(keep));
        if keep(next) {
            assert forall|k: int| 0 <= k < back.len() implies !keep(#[trigger] back[k]) by {
                assert(back[k] == ordered[at + k]);
            }
            back.lemma_all_neg_filter_empty(keep);
            assert(back.filter(keep) =~= Seq::<DescriptorView>::empty());
            assert(front.filter(keep) + back.filter(keep) =~= front.filter(keep));
            assert(front.filter(keep).push(next) + back.filter(keep) =~= front.filter(keep).push(
                next,
            ));
        }
    }
}

/// Where a handler of priority `priority` goes in a list in running
/// order: behind the handlers that run no later.
spec fn insertion_point(ordered: Seq<DescriptorView>, priority: u8) -> int
    decreases ordered.len(),
{
    if ordered.len() == 0 || ordered[0].priority < priority {
        0
    } else {
        1 + insertion_point(ordered.drop_first(), priority)
    }
}

/// The insertion point lies behind the handlers that run no later and
/// before the first that runs later.
proof fn lemma_insertion_point(ordered: Seq<DescriptorView>, priority: u8)
    ensures
        0 <= insertion_point(ordered, priority) <= ordered.len(),
        forall|k: int|
            0 <= k < insertion_point(ordered, priority) ==> ordered[k].priority >= priority,
        insertion_point(ordered, priority) < ordered.len() ==> ordered[insertion_point(
            ordered,
            priority,
        )].priority < priority,
    decreases ordered.len(),
{
    if !(ordered.len() == 0 || ordered[0].priority < priority) {
        let rest = ordered.drop_first();
        lemma_insertion_point(rest, priority);
        let at = insertion_point(rest, priority);
        assert forall|k: int| 0 <= k < at + 1 implies ordered[k].priority >= priority by {
            if k > 0 {
                assert(ordered[k] == rest[k - 1]);
            }
        }
        if at < rest.len() {
            assert(ordered[at + 1] == rest[at]);
        }
    }
}

/// The handlers from a priority upwards stand by falling priority, none
/// is below that priority, and those of each priority at or above it are
/// the ones that were found, in the order in which they were found.
proof fn lemma_from_priority(found: Seq<DescriptorView>, floor: int)
    requires
        0 <= floor <= 256,
    ensures
        non_increasing(from_priority(found, floor)),
        forall|k: int|
            0 <= k < from_priority(found, floor).len() ==> #[trigger] from_priority(
                found,
                floor,
            )[k].priority >= floor,
        forall|priority: u8| #[trigger]
            from_priority(found, floor).filter(with_priority(priority)) == if priority >= floor {
                found.filter(with_priority(priority))
            } else {
                Seq::empty()
            },
    decreases 256 - floor,
{
    let ranked = from_priority(found, floor);
    if floor > 255 {
        reveal(Seq::filter);
    } else {
        let above = from_priority(found, floor + 1);
        let level = found.filter(with_priority(floor as u8));
        lemma_from_priority(found, floor + 1);
        assert(ranked == above + level);
        assert forall|k: int| 0 <= k < level.len() implies (#[trigger] level[k]).priority
            == floor by {
            found.lemma_filter_pred(with_priority(floor as u8), k);
        }
        assert forall|k: int| 0 <= k < ranked.len() implies #[trigger] ranked[k].priority
            >= floor by {
            if k >= above.len() {
                assert(ranked[k] == level[k - above.len()]);
            } else {
                assert(ranked[k] == above[k]);
            }
        }
        assert forall|i: int, j: int| 0 <= i < j < ranked.len() implies ranked[i].priority
            >= ranked[j].priority by {
            if j < above.len() {
                assert(ranked[i] == above[i] && ranked[j] == above[j]);
            } else if i < above.len() {
                assert(ranked[i] == above[i] && ranked[j] == level[j - above.len()]);
            } else {
                assert(ranked[i] == level[i - above.len()] && ranked[j] == level[j - above.len()]);
            }
        }
        assert forall|priority: u8| #[trigger]
            ranked.filter(with_priority(priority)) == if priority >= floor {
                found.filter(with_priority(priority))
            } else {
                Seq::empty()
            } by {
            let keep = with_priority(priority);
            Seq::filter_distributes_over_add(above, level, keep);
            assert(above.filter(keep) == if priority >= floor + 1 {
                found.filter(keep)
            } else {
                Seq::empty()
            });
            if priority == floor {
                lemma_filter_twice(found, keep);
                assert(above.filter(keep) + level.filter(keep) =~= found.filter(keep));
            } else {
                assert forall|k: int| 0 <= k < level.len() implies !keep(#[trigger] level[k]) by {}
                level.lemma_all_neg_filter_empty(keep);
                assert(level.filter(keep) =~= Seq::<DescriptorView>::empty());
                assert(above.filter(keep) + level.filter(keep) =~= above.filter(keep));
            }
        }
    }
}

/// A list that is stable by priority stays so where only the handlers of
/// one event are kept.
proof fn lemma_stable_within_event(
    ordered: Seq<DescriptorView>,
    found: Seq<DescriptorView>,
    event_name: Seq<char>,
)
    requires
        stable_by_priority(ordered, found),
    ensures
        stable_by_priority(ordered.filter(for_event(event_name)), found.filter(for_event(event_name))),
{
    let of_event = for_event(event_name);
    lemma_filter_non_increasing(ordered, of_event);
    assert forall|priority: u8| #[trigger]
        ordered.filter(of_event).filter(with_priority(priority)) == found.filter(of_event).filter(
            with_priority(priority),
        ) by {
        let keep = with_priority(priority);
        lemma_filter_commutes(ordered, of_event, keep);
        lemma_filter_commutes(found, of_event, keep);
        assert(ordered.filter(keep) == found.filter(keep));
    }
}

/// How many of the handlers before the one at `position` pass the test
/// `keep`.
spec fn rank(
    handlers: Seq<DescriptorView>,
    keep: spec_fn(DescriptorView) -> bool,
    position: int,
) -> nat {
    handlers.take(position).filter(keep).len()
}

/// One handler more adds one to the rank where it passes the test, and
/// nothing where it does not.
proof fn lemma_rank_step(
    handlers: Seq<DescriptorView>,
    keep: spec_fn(DescriptorView) -> bool,
    position: int,
)
    requires
        0 <= position < handlers.len(),
    ensures
        rank(handlers, keep, position + 1) == rank(handlers, keep, position) + if keep(
            handlers[position],
        ) {
            1nat
        } else {
            0nat
        },
        handlers.take(position + 1).filter(keep) == if keep(handlers[position]) {
            handlers.take(position).filter(keep).push(handlers[position])
        } else {
            handlers.take(position).filter(keep)
        },
{
    assert(handlers.take(position + 1) =~= handlers.take(position).push(handlers[position]));
    lemma_filter_push(handlers.take(position), handlers[position], keep);
}

/// The rank does not fall from one position to a later one.
proof fn lemma_rank_monotone(
    handlers: Seq<DescriptorView>,
    keep: spec_fn(DescriptorView) -> bool,
    low: int,
    high: int,
)
    requires
        0 <= low <= high <= handlers.len(),
    ensures
        rank(handlers, keep, low) <= rank(handlers, keep, high),
    decreases high - low,
{
    if low < high {
        lemma_rank_monotone(handlers, keep, low, high - 1);
        lemma_rank_step(handlers, keep, high - 1);
    }
}

/// A handler that passes a test stands, among those that pass, behind as
/// many as pass before it.
proof fn lemma_kept_at_rank(
    handlers: Seq<DescriptorView>,
    keep: spec_fn(DescriptorView) -> bool,
    position: int,
)
    requires
        0 <= position < handlers.len(),
        keep(handlers[position]),
    ensures
        rank(handlers, keep, position) < handlers.filter(keep).len(),
        handlers.filter(keep)[rank(handlers, keep, position) as int] == handlers[position],
{
    let front = handlers.take(position + 1);
    let back = handlers.skip(position + 1);
    assert(handlers =~= front + back);
    Seq::filter_distributes_over_add(front, back, keep);
    lemma_rank_step(handlers, keep, position);
}

/// Every handler among those that pass a test is one of the list.
proof fn lemma_rank_onto(
    handlers: Seq<DescriptorView>,
    keep: spec_fn(DescriptorView) -> bool,
    k: int,
) -> (position: int)
    requires
        0 <= k < handlers.filter(keep).len(),
    ensures
        0 <= position < handlers.len(),
        keep(handlers[position]),
        rank(handlers, keep, position) == k,
    decreases handlers.len(),
{
    if handlers.len() == 0 {
        reveal(Seq::filter);
        0
    } else {
        let front = handlers.drop_last();
        let last = handlers.last();
        assert(handlers =~= front.push(last));
        lemma_filter_push(front, last, keep);
        if k < front.filter(keep).len() {
            let position = lemma_rank_onto(front, keep, k);
            assert(handlers.take(position) =~= front.take(position));
            position
        } else {
            assert(handlers.take(front.len() as int) =~= front);
            front.len() as int
        }
    }
}

/// In a list that is stable by priority, of two handlers with the same
/// priority the one that was found first stands first.
proof fn lemma_ties_as_found(
    ordered: Seq<DescriptorView>,
    found: Seq<DescriptorView>,
    earlier: int,
    later: int,
)
    requires
        stable_by_priority(ordered, found),
        0 <= earlier < later < ordered.len(),
    ensures
        ordered[earlier].priority >= ordered[later].priority,
        ordered[earlier].priority == ordered[later].priority ==> exists|a: int, b: int|
            0 <= a < b < found.len() && found[a] == ordered[earlier] && found[b] == ordered[later],
{
    if ordered[earlier].priority == ordered[later].priority {
        let keep = with_priority(ordered[earlier].priority);
        let kept = ordered.filter(keep);
        assert(kept == found.filter(keep));
        let first = rank(ordered, keep, earlier) as int;
        let second = rank(ordered, keep, later) as int;
        lemma_kept_at_rank(ordered, keep, earlier);
        lemma_kept_at_rank(ordered, keep, later);
        lemma_rank_step(ordered, keep, earlier);
        lemma_rank_monotone(ordered, keep, earlier + 1, later);
        assert(first < second);
        let a = lemma_rank_onto(found, keep, first);
        let b = lemma_rank_onto(found, keep, second);
        lemma_kept_at_rank(found, keep, a);
        lemma_kept_at_rank(found, keep, b);
        if b <= a {
            lemma_rank_monotone(found, keep, b, a);
        }
        assert(0 <= a < b < found.len() && found[a] == ordered[earlier] && found[b]
            == ordered[later]);
    }
}

/// Two lists that hold the same handlers by falling priority, those of
/// one priority in the same order, are one list.
proof fn lemma_running_order_unique(
    one: Seq<DescriptorView>,
    other: Seq<DescriptorView>,
    found: Seq<DescriptorView>,
)
    requires
        stable_by_priority(one, found),
        stable_by_priority(other, found),
    ensures
        one == other,
{
    assert forall|priority: u8| #[trigger]
        one.filter(with_priority(priority)) == other.filter(with_priority(priority)) by {
        assert(one.filter(with_priority(priority)) == found.filter(with_priority(priority)));
        assert(other.filter(with_priority(priority)) == found.filter(with_priority(priority)));
    }
    lemma_same_parts_same_order(one, other);
}

/// The last handler of a list is the last of its own priority, and
/// leaving it out changes the handlers of no other priority.
proof fn lemma_last_of_its_priority(handlers: Seq<DescriptorView>)
    requires
        handlers.len() > 0,
    ensures
        handlers.filter(with_priority(handlers.last().priority)).len() > 0,
        handlers.filter(with_priority(handlers.last().priority)).last() == handlers.last(),
        handlers.filter(with_priority(handlers.last().priority)).drop_last()
            == handlers.drop_last().filter(with_priority(handlers.last().priority)),
        forall|priority: u8|
            priority != handlers.last().priority ==> #[trigger] handlers.filter(
                with_priority(priority),
            ) == handlers.drop_last().filter(with_priority(priority)),
{
    let front = handlers.drop_last();
    let last = handlers.last();
    assert(handlers =~= front.push(last));
    lemma_filter_push(front, last, with_priority(last.priority));
    assert(front.filter(with_priority(last.priority)).push(last).drop_last() =~= front.filter(
        with_priority(last.priority),
    ));
    assert forall|priority: u8| priority != last.priority implies #[trigger] handlers.filter(
        with_priority(priority),
    ) == front.filter(with_priority(priority)) by {
        lemma_filter_push(front, last, with_priority(priority));
    }
}

/// Where a list has handlers of a priority, one of its handlers has that
/// priority.
proof fn lemma_priority_present(handlers: Seq<DescriptorView>, priority: u8) -> (position: int)
    requires
        handlers.filter(with_priority(priority)).len() > 0,
    ensures
        0 <= position < handlers.len(),
        handlers[position].priority == priority,
{
    lemma_rank_onto(handlers, with_priority(priority), 0)
}

/// Two lists by falling priority that agree on the handlers of every
/// priority, and on their order, are one list.
proof fn lemma_same_parts_same_order(one: Seq<DescriptorView>, other: Seq<DescriptorView>)
    requires
        non_increasing(one),
        non_increasing(other),
        forall|priority: u8| #[trigger]
            one.filter(with_priority(priority)) == other.filter(with_priority(priority)),
    ensures
        one == other,
    decreases one.len(),
{
    if one.len() == 0 {
        if other.len() > 0 {
            lemma_last_of_its_priority(other);
            assert(one.filter(with_priority(other.last().priority)) == other.filter(
                with_priority(other.last().priority),
            ));
            one.lemma_filter_len(with_priority(other.last().priority));
        }
        assert(one =~= other);
    } else {
        let low = one.last().priority;
        lemma_last_of_its_priority(one);
        assert(one.filter(with_priority(low)) == other.filter(with_priority(low)));
        other.lemma_filter_len(with_priority(low));
        assert(other.len() > 0);
        let other_low = other.last().priority;
        lemma_last_of_its_priority(other);
        assert(one.filter(with_priority(other_low)) == other.filter(with_priority(other_low)));
        let in_other = lemma_priority_present(other, low);
        let in_one = lemma_priority_present(one, other_low);
        assert(other_low == low);
        assert(one.last() == other.last());
        assert forall|priority: u8| #[trigger]
            one.drop_last().filter(with_priority(priority)) == other.drop_last().filter(
                with_priority(priority),
            ) by {
            assert(one.filter(with_priority(priority)) == other.filter(with_priority(priority)));
        }
        lemma_same_parts_same_order(one.drop_last(), other.drop_last());
        assert(one =~= one.drop_last().push(one.last()));
        assert(other =~= other.drop_last().push(other.last()));
    }
}

} // verus!
