//! Partitioning line items into ascending-priority tiers.

use vstd::prelude::*;

use crate::data::{LineItem, TabulationError};

verus! {

/// The lines of one tier: every line of the input carrying this priority,
/// in input order.
pub open spec fn tier_of(lines: Seq<LineItem>, p: i16) -> Seq<LineItem> {
    lines.filter(|l: LineItem| l.priority == p)
}

/// Whether some line of the batch carries the given priority.
pub open spec fn has_priority(lines: Seq<LineItem>, p: i16) -> bool {
    exists|i: int| 0 <= i < lines.len() && (#[trigger] lines[i]).priority == p
}

/// The view of a group list as plain sequences.
pub open spec fn groups_view(groups: Seq<Vec<LineItem>>) -> Seq<Seq<LineItem>> {
    groups.map_values(|g: Vec<LineItem>| g@)
}

/// The canonical grouping, scanning priorities upward from `lo`: one tier
/// for every priority the batch carries, in ascending order.
pub open spec fn spec_grouping_from(lines: Seq<LineItem>, lo: int) -> Seq<Seq<LineItem>>
    decreases i16::MAX + 1 - lo,
{
    if lo > i16::MAX as int {
        Seq::empty()
    } else {
        let rest = spec_grouping_from(lines, lo + 1);
        if has_priority(lines, lo as i16) {
            seq![tier_of(lines, lo as i16)] + rest
        } else {
            rest
        }
    }
}

/// The canonical grouping of a batch: every priority it carries, ascending,
/// each with its tier in input order.
pub open spec fn spec_grouping(lines: Seq<LineItem>) -> Seq<Seq<LineItem>> {
    spec_grouping_from(lines, i16::MIN as int)
}

/// Scanning over a band of absent priorities emits nothing.
proof fn lemma_grouping_from_skip(lines: Seq<LineItem>, lo: int, hi: int)
    requires
        lo <= hi <= i16::MAX as int + 1,
        forall|p: int|
            lo <= p < hi ==> !has_priority(lines, #[trigger] (p as i16)),
    ensures
        spec_grouping_from(lines, lo) == spec_grouping_from(lines, hi),
    decreases hi - lo,
{
    if lo < hi {
        assert(!has_priority(lines, lo as i16));
        lemma_grouping_from_skip(lines, lo + 1, hi);
    }
}

/// Whether every line respects the cascade floor invariant: the priority
/// band a line may cascade into must lie below the line itself.
pub open spec fn cascade_floors_ok(lines: Seq<LineItem>) -> bool {
    forall|i: int|
        0 <= i < lines.len() ==> (#[trigger] lines[i]).cascade_under <= lines[i].priority
}

/// Relies on the formatting machinery of std to render the validation
/// message naming the offending line.
#[verifier::external_body]
fn cascade_error_text(id: i32, cascade_under: i16, priority: i16) -> (r: String)
    ensures
        r@.len() > 0,
{
    format!(
        "Line {} has a cascade_under value of {}, above its priority of {}.",
        id, cascade_under, priority,
    )
}

/// Takes a list of line items and builds them into lists of equal priority,
/// ascending. Lines sharing a priority keep their input order. Fails when a
/// line's `cascade_under` exceeds its `priority`, naming that line.
pub fn lines_by_priority(lines: Vec<LineItem>) -> (r: Result<Vec<Vec<LineItem>>, TabulationError>)
    ensures
        (r is Ok) == cascade_floors_ok(lines@),
        r is Ok ==> groups_view(r->Ok_0@) == spec_grouping(lines@),
        r is Ok ==> ({
            let groups = r->Ok_0;
            &&& forall|g: int| 0 <= g < groups@.len() ==> (#[trigger] groups@[g])@.len() > 0
            &&& forall|g: int|
                0 <= g < groups@.len() ==> (#[trigger] groups@[g])@ == tier_of(
                    lines@,
                    groups@[g]@[0].priority,
                )
            &&& forall|g1: int, g2: int|
                0 <= g1 < g2 < groups@.len() ==> (#[trigger] groups@[g1])@[0].priority < (
                #[trigger] groups@[g2])@[0].priority
            &&& forall|i: int|
                0 <= i < lines@.len() ==> exists|g: int|
                    0 <= g < groups@.len() && (#[trigger] groups@[g])@[0].priority == (
                    #[trigger] lines@[i]).priority
        }),
{
    // Validate the cascade floor of every line first.
    let mut v: usize = 0;
    while v < lines.len()
        invariant
            v <= lines@.len(),
            forall|i: int| 0 <= i < v ==> (#[trigger] lines@[i]).cascade_under <= lines@[i].priority,
        decreases lines@.len() - v,
    {
        if lines[v].cascade_under > lines[v].priority {
            return Err(
                TabulationError::ErrorString(
                    cascade_error_text(lines[v].id, lines[v].cascade_under, lines[v].priority),
                ),
            );
        }
        v = v + 1;
    }
    let mut groups: Vec<Vec<LineItem>> = Vec::new();
    let mut started = false;
    let mut prev: i16 = 0;
    let ghost mut next_lo: int = i16::MIN as int;
    proof {
        assert(groups_view(groups@) =~= Seq::<Seq<LineItem>>::empty());
        assert(groups_view(groups@) + spec_grouping_from(lines@, next_lo) =~= spec_grouping(
            lines@,
        ));
    }
    loop
        invariant
            cascade_floors_ok(lines@),
            next_lo == if started {
                prev as int + 1
            } else {
                i16::MIN as int
            },
            groups_view(groups@) + spec_grouping_from(lines@, next_lo) == spec_grouping(lines@),
            forall|g: int| 0 <= g < groups@.len() ==> (#[trigger] groups@[g])@.len() > 0,
            forall|g: int|
                0 <= g < groups@.len() ==> (#[trigger] groups@[g])@ == tier_of(
                    lines@,
                    groups@[g]@[0].priority,
                ),
            forall|g1: int, g2: int|
                0 <= g1 < g2 < groups@.len() ==> (#[trigger] groups@[g1])@[0].priority < (
                #[trigger] groups@[g2])@[0].priority,
            !started ==> groups@.len() == 0,
            started ==> groups@.len() > 0 && groups@[groups@.len() - 1]@[0].priority == prev,
            // Every line at or below the highest emitted priority has its tier.
            forall|i: int|
                0 <= i < lines@.len() && (started && (#[trigger] lines@[i]).priority <= prev)
                    ==> exists|g: int|
                    0 <= g < groups@.len() && (#[trigger] groups@[g])@[0].priority
                        == lines@[i].priority,
        ensures
            groups_view(groups@) == spec_grouping(lines@),
            forall|g: int| 0 <= g < groups@.len() ==> (#[trigger] groups@[g])@.len() > 0,
            forall|g: int|
                0 <= g < groups@.len() ==> (#[trigger] groups@[g])@ == tier_of(
                    lines@,
                    groups@[g]@[0].priority,
                ),
            forall|g1: int, g2: int|
                0 <= g1 < g2 < groups@.len() ==> (#[trigger] groups@[g1])@[0].priority < (
                #[trigger] groups@[g2])@[0].priority,
            forall|i: int|
                0 <= i < lines@.len() ==> exists|g: int|
                    0 <= g < groups@.len() && (#[trigger] groups@[g])@[0].priority == (
                    #[trigger] lines@[i]).priority,
        decreases if started {
            i16::MAX - prev
        } else {
            200000int
        },
    {
        // Find the smallest priority not yet emitted.
        let mut found = false;
        let mut p: i16 = 0;
        let mut i: usize = 0;
        while i < lines.len()
            invariant
                i <= lines@.len(),
                found ==> (!started || p > prev),
                found ==> exists|j: int|
                    0 <= j < i && (#[trigger] lines@[j]).priority == p,
                forall|j: int|
                    0 <= j < i && (!started || (#[trigger] lines@[j]).priority > prev) ==> found
                        && p <= lines@[j].priority,
            decreases lines@.len() - i,
        {
            let lp = lines[i].priority;
            if (!started || lp > prev) && (!found || lp < p) {
                found = true;
                p = lp;
            }
            i = i + 1;
        }
        if !found {
            proof {
                assert forall|i2: int| 0 <= i2 < lines@.len() implies exists|g: int|
                    0 <= g < groups@.len() && (#[trigger] groups@[g])@[0].priority == (
                    #[trigger] lines@[i2]).priority by {
                    assert(!(!started || lines@[i2].priority > prev));
                    assert(started && lines@[i2].priority <= prev);
                }
                // No priority at or above the scan point remains, so the
                // canonical grouping has nothing more to emit.
                assert forall|pp: int| next_lo <= pp < i16::MAX as int + 1 implies !has_priority(
                    lines@,
                    #[trigger] (pp as i16),
                ) by {
                    if has_priority(lines@, pp as i16) {
                        let j = choose|j: int|
                            0 <= j < lines@.len() && (#[trigger] lines@[j]).priority == pp as i16;
                        assert(!(!started || lines@[j].priority > prev));
                    }
                }
                lemma_grouping_from_skip(lines@, next_lo, i16::MAX as int + 1);
                assert(groups_view(groups@) + Seq::<Seq<LineItem>>::empty() =~= groups_view(
                    groups@,
                ));
            }
            break;
        }
        // Collect the tier for `p` in input order.
        let mut tier: Vec<LineItem> = Vec::new();
        let mut k: usize = 0;
        proof {
            reveal(Seq::filter);
            assert(lines@.subrange(0, 0) =~= Seq::<LineItem>::empty());
        }
        while k < lines.len()
            invariant
                k <= lines@.len(),
                tier@ == tier_of(lines@.subrange(0, k as int), p),
            decreases lines@.len() - k,
        {
            proof {
                reveal(Seq::filter);
                assert(lines@.subrange(0, k + 1).drop_last() =~= lines@.subrange(0, k as int));
                assert(lines@.subrange(0, k + 1).last() == lines@[k as int]);
            }
            if lines[k].priority == p {
                tier.push(lines[k].clone());
            }
            k = k + 1;
        }
        proof {
            assert(lines@.subrange(0, lines@.len() as int) =~= lines@);
            // The tier is not empty: some line carries `p`.
            let j = choose|j: int| 0 <= j < lines@.len() && (#[trigger] lines@[j]).priority == p;
            lines@.lemma_filter_contains(|l: LineItem| l.priority == p, j);
            lines@.lemma_filter_pred(|l: LineItem| l.priority == p, 0);
        }
        let ghost old_groups = groups@;
        let ghost tier_view = tier@;
        groups.push(tier);
        proof {
            // Nothing was skipped between the scan point and `p`, and `p`
            // itself is present, so the canonical grouping emits this tier
            // next.
            assert forall|pp: int| next_lo <= pp < p as int implies !has_priority(
                lines@,
                #[trigger] (pp as i16),
            ) by {
                if has_priority(lines@, pp as i16) {
                    let j = choose|j: int|
                        0 <= j < lines@.len() && (#[trigger] lines@[j]).priority == pp as i16;
                    assert(!started || lines@[j].priority > prev);
                    assert(p <= lines@[j].priority);
                }
            }
            lemma_grouping_from_skip(lines@, next_lo, p as int);
            assert(has_priority(lines@, p));
            assert((p as int) as i16 == p);
            assert(spec_grouping_from(lines@, p as int) =~= seq![tier_of(lines@, p)]
                + spec_grouping_from(lines@, p as int + 1));
            assert(groups_view(groups@) =~= groups_view(old_groups).push(tier_view));
            assert(groups_view(groups@) + spec_grouping_from(lines@, p as int + 1)
                =~= spec_grouping(lines@));
            next_lo = p as int + 1;
        }
        proof {
            assert forall|i2: int|
                0 <= i2 < lines@.len() && (#[trigger] lines@[i2]).priority <= p implies exists|
                g: int,
            |
                0 <= g < groups@.len() && (#[trigger] groups@[g])@[0].priority
                    == lines@[i2].priority by {
                if lines@[i2].priority == p {
                    assert(groups@[groups@.len() - 1]@[0].priority == p);
                } else if started && lines@[i2].priority <= prev {
                    let g = choose|g: int|
                        0 <= g < old_groups.len() && (#[trigger] old_groups[g])@[0].priority
                            == lines@[i2].priority;
                    assert(groups@[g]@[0].priority == lines@[i2].priority);
                } else {
                    // Nothing lies strictly between `prev` and `p`: the
                    // search chose the least unemitted priority.
                    assert(false);
                }
            }
        }
        started = true;
        prev = p;
    }
    Ok(groups)
}

} // verus!
