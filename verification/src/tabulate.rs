//! The tabulator: sequencing grouping, tier folding, quantization and
//! remainder repair, with a frozen fast path.

use vstd::prelude::*;

use crate::data::{Calculation, LineItem, TabulationError};
use crate::decimal::{
    dec_to_string, quantize, quantized_zero, spec_add_exact, spec_parse, spec_quantize,
    string_rep, value_string, parse_dec, Dec, MAX_SCALE,
};
use crate::group::{cascade_floors_ok, groups_view, lines_by_priority, spec_grouping};
use crate::remainder::{
    distribute_difference, leftover_computable, map_quantized, no_line_msg, none_eligible,
    repair_in_range, to_distribute,
};
use crate::tier::{priority_total, spec_priority_total};
use crate::valuemap::{seq_insert, sum_units, Entry, LineValueMap};

verus! {

/// Whether every line of a batch carries a frozen value.
pub open spec fn all_frozen(lines: Seq<LineItem>) -> bool {
    forall|i: int| 0 <= i < lines.len() ==> (#[trigger] lines[i]).frozen_value is Some
}

/// The entries a fully frozen batch resolves to: each line's frozen value,
/// parsed exactly, keyed by the line's identity; a later duplicate identity
/// overwrites the earlier entry. `None` where a line carries no frozen
/// value or one fails to parse.
pub open spec fn spec_frozen_entries(lines: Seq<LineItem>) -> Option<Seq<Entry>>
    decreases lines.len(),
{
    if lines.len() == 0 {
        Some(Seq::empty())
    } else {
        match spec_frozen_entries(lines.drop_last()) {
            None => None,
            Some(st) => {
                let line = lines.last();
                if line.frozen_value is None {
                    None
                } else {
                    match spec_parse(line.frozen_value->Some_0@) {
                        None => None,
                        Some(v) => Some(
                            seq_insert(st, Entry { id: line.id, priority: line.priority, value: v }),
                        ),
                    }
                }
            },
        }
    }
}

/// The exact sum of the entry values, or `None` when it cannot be
/// represented.
pub open spec fn spec_sum_entries(entries: Seq<Entry>) -> Option<Dec>
    decreases entries.len(),
{
    if entries.len() == 0 {
        Some(Dec { mantissa: 0, scale: 0 })
    } else {
        match spec_sum_entries(entries.drop_last()) {
            None => None,
            Some(acc) => spec_add_exact(acc, entries.last().value),
        }
    }
}

/// The exact sum of the negative entry values, or `None` when it cannot be
/// represented.
pub open spec fn spec_discount_entries(entries: Seq<Entry>) -> Option<Dec>
    decreases entries.len(),
{
    if entries.len() == 0 {
        Some(Dec { mantissa: 0, scale: 0 })
    } else {
        match spec_discount_entries(entries.drop_last()) {
            None => None,
            Some(acc) => if entries.last().value.units() < 0 {
                spec_add_exact(acc, entries.last().value)
            } else {
                Some(acc)
            },
        }
    }
}

/// Once building the frozen entries fails on a prefix, it fails on all.
proof fn lemma_frozen_none_extends(lines: Seq<LineItem>, i: int)
    requires
        0 <= i <= lines.len(),
        spec_frozen_entries(lines.subrange(0, i)) is None,
    ensures
        spec_frozen_entries(lines) is None,
    decreases lines.len() - i,
{
    if i == lines.len() {
        assert(lines.subrange(0, i) =~= lines);
    } else {
        assert(lines.subrange(0, i + 1).drop_last() =~= lines.subrange(0, i));
        lemma_frozen_none_extends(lines, i + 1);
    }
}

/// Once an exact entry sum fails on a prefix, it fails on all.
proof fn lemma_sum_entries_none_extends(entries: Seq<Entry>, i: int)
    requires
        0 <= i <= entries.len(),
        spec_sum_entries(entries.subrange(0, i)) is None,
    ensures
        spec_sum_entries(entries) is None,
    decreases entries.len() - i,
{
    if i == entries.len() {
        assert(entries.subrange(0, i) =~= entries);
    } else {
        assert(entries.subrange(0, i + 1).drop_last() =~= entries.subrange(0, i));
        lemma_sum_entries_none_extends(entries, i + 1);
    }
}

/// Once an exact discount sum fails on a prefix, it fails on all.
proof fn lemma_discount_entries_none_extends(entries: Seq<Entry>, i: int)
    requires
        0 <= i <= entries.len(),
        spec_discount_entries(entries.subrange(0, i)) is None,
    ensures
        spec_discount_entries(entries) is None,
    decreases entries.len() - i,
{
    if i == entries.len() {
        assert(entries.subrange(0, i) =~= entries);
    } else {
        assert(entries.subrange(0, i + 1).drop_last() =~= entries.subrange(0, i));
        lemma_discount_entries_none_extends(entries, i + 1);
    }
}

/// Resolve a fully frozen batch: every line must carry a frozen value, and
/// the batch resolves to those values as they stand. The total is the exact
/// sum of the resolved entries and the discount the exact sum of the
/// negative ones, so the total equals the sum of the subtotals.
pub fn frozen_lines(lines: Vec<LineItem>) -> (r: Result<
    (Dec, Dec, LineValueMap),
    TabulationError,
>)
    ensures
        (exists|i: int|
            0 <= i < lines@.len() && (#[trigger] lines@[i]).frozen_value is None) ==> r is Err
            && r->Err_0->ErrorString_0@ == "Unfrozen line found!"@,
        (r is Ok) == ({
            &&& spec_frozen_entries(lines@) is Some
            &&& spec_sum_entries(spec_frozen_entries(lines@)->Some_0) is Some
            &&& spec_discount_entries(spec_frozen_entries(lines@)->Some_0) is Some
        }),
        r is Ok ==> ({
            let entries = spec_frozen_entries(lines@)->Some_0;
            &&& r->Ok_0.2@ == entries
            &&& r->Ok_0.2.inv()
            &&& Some(r->Ok_0.0) == spec_sum_entries(entries)
            &&& Some(r->Ok_0.1) == spec_discount_entries(entries)
            &&& r->Ok_0.0.wf() && r->Ok_0.1.wf()
            &&& r->Ok_0.0.units() == sum_units(entries)
        }),
{
    // Refuse a batch where any line lacks a frozen value.
    let mut i: usize = 0;
    while i < lines.len()
        invariant
            i <= lines@.len(),
            forall|j: int| 0 <= j < i ==> (#[trigger] lines@[j]).frozen_value is Some,
        decreases lines@.len() - i,
    {
        if lines[i].frozen_value.is_none() {
            proof {
                assert(lines@.subrange(0, i + 1).drop_last() =~= lines@.subrange(0, i as int));
                assert(lines@.subrange(0, i + 1).last() == lines@[i as int]);
                assert(spec_frozen_entries(lines@.subrange(0, i + 1)) is None);
                lemma_frozen_none_extends(lines@, i + 1);
            }
            return Err(TabulationError::from_text("Unfrozen line found!"));
        }
        i = i + 1;
    }
    // Resolve each line to its parsed frozen value.
    let mut map = LineValueMap::new();
    let mut k: usize = 0;
    proof {
        assert(lines@.subrange(0, 0) =~= Seq::<LineItem>::empty());
    }
    while k < lines.len()
        invariant
            k <= lines@.len(),
            forall|j: int| 0 <= j < lines@.len() ==> (#[trigger] lines@[j]).frozen_value is Some,
            Some(map@) == spec_frozen_entries(lines@.subrange(0, k as int)),
            map.inv(),
        decreases lines@.len() - k,
    {
        proof {
            assert(lines@.subrange(0, k + 1).drop_last() =~= lines@.subrange(0, k as int));
            assert(lines@.subrange(0, k + 1).last() == lines@[k as int]);
        }
        let line = &lines[k];
        let frozen = match &line.frozen_value {
            Some(s) => s,
            None => {
                proof {
                    assert(lines@[k as int].frozen_value is Some);
                    assert(false);
                }
                return Err(TabulationError::from_text("Unfrozen line found!"));
            },
        };
        let v = match parse_dec(frozen.as_str()) {
            Ok(v) => v,
            Err(m) => {
                proof {
                    lemma_frozen_none_extends(lines@, k + 1);
                }
                return Err(TabulationError::ErrorString(m));
            },
        };
        map.insert(line.id, line.priority, v);
        k = k + 1;
    }
    proof {
        assert(lines@.subrange(0, lines@.len() as int) =~= lines@);
    }
    // The total is the exact sum of the resolved values; the discount, of
    // the negative ones.
    let mut total = Dec::new(0, 0);
    let mut discount = Dec::new(0, 0);
    let mut j: usize = 0;
    proof {
        assert(map@.subrange(0, 0) =~= Seq::<Entry>::empty());
    }
    while j < map.len()
        invariant
            map.inv(),
            j <= map@.len(),
            forall|j2: int| 0 <= j2 < lines@.len() ==> (#[trigger] lines@[j2]).frozen_value is Some,
            Some(map@) == spec_frozen_entries(lines@),
            total.wf(),
            discount.wf(),
            Some(total) == spec_sum_entries(map@.subrange(0, j as int)),
            Some(discount) == spec_discount_entries(map@.subrange(0, j as int)),
            total.units() == sum_units(map@.subrange(0, j as int)),
        decreases map@.len() - j,
    {
        proof {
            assert(map@.subrange(0, j + 1).drop_last() =~= map@.subrange(0, j as int));
            assert(map@.subrange(0, j + 1).last() == map@[j as int]);
        }
        let e = map.at(j);
        total = match total.add_exact(&e.value) {
            Some(v) => v,
            None => {
                proof {
                    lemma_sum_entries_none_extends(map@, j + 1);
                }
                return Err(TabulationError::from_text(
                    "Decimal overflow while tabulating line items.",
                ));
            },
        };
        if e.value.is_negative() {
            discount = match discount.add_exact(&e.value) {
                Some(v) => v,
                None => {
                    proof {
                        lemma_discount_entries_none_extends(map@, j + 1);
                    }
                    return Err(TabulationError::from_text(
                        "Decimal overflow while tabulating line items.",
                    ));
                },
            };
        }
        j = j + 1;
    }
    proof {
        assert(map@.subrange(0, map@.len() as int) =~= map@);
    }
    Ok((total, discount, map))
}

/// The running state after folding each tier in turn, starting from a
/// quantized zero total and discount and no entries.
pub open spec fn spec_fold_tiers(groups: Seq<Seq<LineItem>>, q: u32) -> Option<(Dec, Dec, Seq<Entry>)>
    decreases groups.len(),
{
    if groups.len() == 0 {
        Some((Dec { mantissa: 0, scale: q }, Dec { mantissa: 0, scale: q }, Seq::empty()))
    } else {
        match spec_fold_tiers(groups.drop_last(), q) {
            None => None,
            Some(st) => spec_priority_total(st.0, st.1, st.2, q, groups.last()),
        }
    }
}

/// Once the tier fold fails on a prefix of the groups, it fails on all.
proof fn lemma_fold_none_extends(groups: Seq<Seq<LineItem>>, q: u32, i: int)
    requires
        0 <= i <= groups.len(),
        spec_fold_tiers(groups.subrange(0, i), q) is None,
    ensures
        spec_fold_tiers(groups, q) is None,
    decreases groups.len() - i,
{
    if i == groups.len() {
        assert(groups.subrange(0, i) =~= groups);
    } else {
        assert(groups.subrange(0, i + 1).drop_last() =~= groups.subrange(0, i));
        lemma_fold_none_extends(groups, q, i + 1);
    }
}

/// The entries with every value quantized.
pub open spec fn quantize_entries(s: Seq<Entry>, q: u32) -> Seq<Entry> {
    s.map_values(
        |e: Entry| Entry { id: e.id, priority: e.priority, value: spec_quantize(e.value, q) },
    )
}

/// Fold the sorted tiers, quantize every resolved value, and repair the
/// leftover so the quantized subtotals sum exactly to the total. The total
/// and discount are exactly what the tier fold gives; the entries carry the
/// fold's identities in order, with quantized values moved only by whole
/// quanta, and their sum equals the total exactly.
pub fn normalized_lines(priority_sets: &Vec<Vec<LineItem>>, quantization: u32) -> (r: Result<
    (Dec, Dec, LineValueMap),
    TabulationError,
>)
    requires
        quantization <= MAX_SCALE,
    ensures
        r is Ok ==> ({
            let folded = spec_fold_tiers(groups_view(priority_sets@), quantization);
            &&& folded is Some
            &&& r->Ok_0.0 == folded->Some_0.0
            &&& r->Ok_0.1 == folded->Some_0.1
            &&& r->Ok_0.0.wf() && r->Ok_0.0.scale <= quantization
            &&& r->Ok_0.1.wf()
            &&& r->Ok_0.2.inv()
            &&& map_quantized(r->Ok_0.2@, quantization)
            &&& r->Ok_0.2@.len() == folded->Some_0.2.len()
            &&& forall|i: int|
                0 <= i < r->Ok_0.2@.len() ==> (#[trigger] r->Ok_0.2@[i]).id
                    == folded->Some_0.2[i].id && r->Ok_0.2@[i].priority
                    == folded->Some_0.2[i].priority
            &&& forall|i: int|
                0 <= i < r->Ok_0.2@.len() ==> ((#[trigger] r->Ok_0.2@[i]).value.units()
                    - spec_quantize(folded->Some_0.2[i].value, quantization).units()) % pow10_q(
                    quantization,
                ) == 0
            &&& r->Ok_0.0.units() == sum_units(r->Ok_0.2@)
        }),
        spec_fold_tiers(groups_view(priority_sets@), quantization) is None ==> r is Err,
        // Success is owed whenever the fold goes through, the leftover can
        // be computed, and the repair either has nothing to do or has a line
        // to absorb it within range.
        ({
            let folded = spec_fold_tiers(groups_view(priority_sets@), quantization);
            &&& folded is Some
            &&& leftover_computable(
                folded->Some_0.0,
                quantize_entries(folded->Some_0.2, quantization),
                quantization,
            )
            &&& ({
                let qe = quantize_entries(folded->Some_0.2, quantization);
                let leftover = folded->Some_0.0.units() - sum_units(qe);
                leftover == 0 || (!none_eligible(qe, leftover > 0) && repair_in_range(
                    qe,
                    leftover,
                    quantization,
                ))
            })
        }) ==> r is Ok,
        // A leftover with no line to absorb it is owed the missing-base-line
        // error.
        ({
            let folded = spec_fold_tiers(groups_view(priority_sets@), quantization);
            &&& folded is Some
            &&& leftover_computable(
                folded->Some_0.0,
                quantize_entries(folded->Some_0.2, quantization),
                quantization,
            )
            &&& ({
                let qe = quantize_entries(folded->Some_0.2, quantization);
                let leftover = folded->Some_0.0.units() - sum_units(qe);
                leftover != 0 && none_eligible(qe, leftover > 0)
            })
        }) ==> r is Err && r->Err_0->ErrorString_0@ == no_line_msg(),
{
    let mut total = quantized_zero(quantization);
    let mut discount = quantized_zero(quantization);
    let mut base_subtotals = LineValueMap::new();
    let mut g: usize = 0;
    proof {
        assert(groups_view(priority_sets@).subrange(0, 0) =~= Seq::<Seq<LineItem>>::empty());
    }
    while g < priority_sets.len()
        invariant
            quantization <= MAX_SCALE,
            g <= priority_sets@.len(),
            total.wf(),
            total.scale <= quantization,
            discount.wf(),
            base_subtotals.inv(),
            Some((total, discount, base_subtotals@)) == spec_fold_tiers(
                groups_view(priority_sets@).subrange(0, g as int),
                quantization,
            ),
        decreases priority_sets@.len() - g,
    {
        proof {
            assert(groups_view(priority_sets@).subrange(0, g + 1).drop_last() =~= groups_view(
                priority_sets@,
            ).subrange(0, g as int));
            assert(groups_view(priority_sets@).subrange(0, g + 1).last() == priority_sets@[
                g as int]@);
        }
        let state = match priority_total((total, discount, base_subtotals), quantization, &priority_sets[g]) {
            Ok(v) => v,
            Err(e) => {
                proof {
                    lemma_fold_none_extends(groups_view(priority_sets@), quantization, g + 1);
                }
                return Err(e);
            },
        };
        total = state.0;
        discount = state.1;
        base_subtotals = state.2;
        g = g + 1;
    }
    proof {
        assert(groups_view(priority_sets@).subrange(0, groups_view(priority_sets@).len() as int)
            =~= groups_view(priority_sets@));
    }
    let ghost folded_entries = base_subtotals@;
    // Quantize every resolved value.
    let mut subtotals = LineValueMap::new();
    let mut k: usize = 0;
    proof {
        assert(quantize_entries(folded_entries, quantization).subrange(0, 0) =~= Seq::<
            Entry,
        >::empty());
    }
    while k < base_subtotals.len()
        invariant
            quantization <= MAX_SCALE,
            base_subtotals.inv(),
            base_subtotals@ == folded_entries,
            k <= base_subtotals@.len(),
            subtotals@ =~= quantize_entries(folded_entries, quantization).subrange(0, k as int),
            subtotals.inv(),
        decreases base_subtotals@.len() - k,
    {
        let e = base_subtotals.at(k);
        let qv = quantize(&e.value, quantization);
        proof {
            let qe = quantize_entries(folded_entries, quantization);
            assert(qe[k as int] == (Entry { id: e.id, priority: e.priority, value: qv }));
            assert forall|a: int, b: int|
                0 <= a < b < subtotals@.len() + 1 implies !(#[trigger] qe.subrange(0, k + 1)[a]).is_key(
                (#[trigger] qe.subrange(0, k + 1)[b]).id,
                qe.subrange(0, k + 1)[b].priority,
            ) by {
                assert(!folded_entries[a].is_key(folded_entries[b].id, folded_entries[b].priority));
            }
            crate::valuemap::lemma_seq_insert_fresh(
                subtotals@,
                Entry { id: e.id, priority: e.priority, value: qv },
            );
            assert forall|j2: int| 0 <= j2 < subtotals@.len() implies !(
            #[trigger] subtotals@[j2]).is_key(e.id, e.priority) by {
                assert(subtotals@[j2] == quantize_entries(folded_entries, quantization)[j2]);
                assert(!folded_entries[j2].is_key(
                    folded_entries[k as int].id,
                    folded_entries[k as int].priority,
                ));
            }
        }
        subtotals.insert(e.id, e.priority, qv);
        proof {
            assert(subtotals@ =~= quantize_entries(folded_entries, quantization).subrange(
                0,
                k + 1,
            ));
        }
        k = k + 1;
    }
    proof {
        assert(subtotals@ =~= quantize_entries(folded_entries, quantization));
        assert forall|i2: int| 0 <= i2 < subtotals@.len() implies (
        #[trigger] subtotals@[i2]).value.scale <= quantization by {
            assert(subtotals@[i2].value == spec_quantize(folded_entries[i2].value, quantization));
        }
        crate::decimal::lemma_pow10_pos((MAX_SCALE - quantization) as nat);
    }
    let ghost qe = subtotals@;
    let difference = match to_distribute(&total, &subtotals, quantization) {
        Ok(v) => v,
        Err(e) => {
            return Err(e);
        },
    };
    if !difference.is_zero() {
        subtotals = match distribute_difference(difference, subtotals, quantization) {
            Ok(v) => v,
            Err(e) => {
                return Err(e);
            },
        };
        proof {
            assert(sum_units(subtotals@) == sum_units(qe) + difference.units());
        }
    } else {
        proof {
            assert(sum_units(subtotals@) == total.units() - difference.units());
            assert forall|i2: int| 0 <= i2 < subtotals@.len() implies ((
            #[trigger] subtotals@[i2]).value.units() - qe[i2].value.units()) % pow10_q(
                quantization,
            ) == 0 by {
                assert(subtotals@[i2] == qe[i2]);
            }
        }
    }
    proof {
        assert forall|i2: int| 0 <= i2 < subtotals@.len() implies (
        #[trigger] subtotals@[i2]).id == folded_entries[i2].id && subtotals@[i2].priority
            == folded_entries[i2].priority && (subtotals@[i2].value.units() - spec_quantize(
            folded_entries[i2].value,
            quantization,
        ).units()) % pow10_q(quantization) == 0 by {
            assert(qe[i2].id == folded_entries[i2].id && qe[i2].priority
                == folded_entries[i2].priority);
            assert(qe[i2].value == spec_quantize(folded_entries[i2].value, quantization));
        }
    }
    Ok((total, discount, subtotals))
}

/// The quantum size at a given quantization, in `10^-28` units.
pub open spec fn pow10_q(quantization: u32) -> int {
    crate::decimal::pow10((MAX_SCALE - quantization) as nat)
}

/// Whether any line of a batch carries a frozen value.
pub open spec fn any_frozen(lines: Seq<LineItem>) -> bool {
    exists|i: int| 0 <= i < lines.len() && (#[trigger] lines[i]).frozen_value is Some
}

/// Whether the canonical tabulation of an unfrozen batch owes success: the
/// tier fold goes through, the leftover can be computed, and the repair
/// either has nothing to do or has a line to absorb it within range.
pub open spec fn tabulation_in_range(lines: Seq<LineItem>, q: u32) -> bool {
    let folded = spec_fold_tiers(spec_grouping(lines), q);
    &&& folded is Some
    &&& leftover_computable(
        folded->Some_0.0,
        quantize_entries(folded->Some_0.2, q),
        q,
    )
    &&& ({
        let qe = quantize_entries(folded->Some_0.2, q);
        let leftover = folded->Some_0.0.units() - sum_units(qe);
        leftover == 0 || (!none_eligible(qe, leftover > 0) && repair_in_range(qe, leftover, q))
    })
}

/// Whether the canonical tabulation leaves a leftover with no line to
/// absorb it: the batch is missing an anchor base line.
pub open spec fn tabulation_missing_anchor(lines: Seq<LineItem>, q: u32) -> bool {
    let folded = spec_fold_tiers(spec_grouping(lines), q);
    &&& folded is Some
    &&& leftover_computable(
        folded->Some_0.0,
        quantize_entries(folded->Some_0.2, q),
        q,
    )
    &&& ({
        let qe = quantize_entries(folded->Some_0.2, q);
        let leftover = folded->Some_0.0.units() - sum_units(qe);
        leftover != 0 && none_eligible(qe, leftover > 0)
    })
}

/// Get the total, the discounted amount, and the map with each line item's
/// resolved value. A batch where every line carries a frozen value resolves
/// to those values as they stand; a batch where only some lines are frozen
/// is refused with the unfrozen-line error; any other batch is grouped into
/// tiers, folded, quantized and repaired, so that in every success the
/// returned total equals the sum of the returned subtotal values exactly.
pub fn get_totals(lines: Vec<LineItem>, quantization: u32) -> (r: Result<
    (Dec, Dec, LineValueMap),
    TabulationError,
>)
    requires
        quantization <= MAX_SCALE,
    ensures
        r is Ok ==> r->Ok_0.0.wf() && r->Ok_0.1.wf() && r->Ok_0.2.inv() && r->Ok_0.0.units()
            == sum_units(r->Ok_0.2@),
        all_frozen(lines@) ==> ({
            &&& (r is Ok) == ({
                &&& spec_frozen_entries(lines@) is Some
                &&& spec_sum_entries(spec_frozen_entries(lines@)->Some_0) is Some
                &&& spec_discount_entries(spec_frozen_entries(lines@)->Some_0) is Some
            })
            &&& r is Ok ==> r->Ok_0.2@ == spec_frozen_entries(lines@)->Some_0 && Some(r->Ok_0.0)
                == spec_sum_entries(spec_frozen_entries(lines@)->Some_0) && Some(r->Ok_0.1)
                == spec_discount_entries(spec_frozen_entries(lines@)->Some_0)
        }),
        (any_frozen(lines@) && !all_frozen(lines@)) ==> r is Err && r->Err_0->ErrorString_0@
            == "Unfrozen line found!"@,
        (!any_frozen(lines@) && lines@.len() > 0) ==> ({
            let folded = spec_fold_tiers(spec_grouping(lines@), quantization);
            &&& (!cascade_floors_ok(lines@) ==> r is Err)
            &&& r is Ok ==> ({
                &&& cascade_floors_ok(lines@)
                &&& folded is Some
                &&& r->Ok_0.0 == folded->Some_0.0
                &&& r->Ok_0.1 == folded->Some_0.1
                &&& r->Ok_0.2@.len() == folded->Some_0.2.len()
                &&& forall|i: int|
                    0 <= i < r->Ok_0.2@.len() ==> (#[trigger] r->Ok_0.2@[i]).id
                        == folded->Some_0.2[i].id && r->Ok_0.2@[i].priority
                        == folded->Some_0.2[i].priority && ((r->Ok_0.2@[i]).value.units()
                        - spec_quantize(folded->Some_0.2[i].value, quantization).units())
                        % pow10_q(quantization) == 0
                &&& map_quantized(r->Ok_0.2@, quantization)
            })
            &&& (cascade_floors_ok(lines@) && tabulation_in_range(lines@, quantization)) ==> r
                is Ok
            &&& (cascade_floors_ok(lines@) && tabulation_missing_anchor(lines@, quantization))
                ==> r is Err && r->Err_0->ErrorString_0@ == no_line_msg()
        }),
{
    // A batch where any line carries a frozen value takes the frozen path;
    // a mixed batch is refused there with the unfrozen-line error.
    let mut has_frozen = false;
    let mut i: usize = 0;
    while i < lines.len()
        invariant
            i <= lines@.len(),
            has_frozen == exists|j: int|
                0 <= j < i && (#[trigger] lines@[j]).frozen_value is Some,
        decreases lines@.len() - i,
    {
        if lines[i].frozen_value.is_some() {
            proof {
                assert(lines@[i as int].frozen_value is Some);
            }
            has_frozen = true;
        }
        i = i + 1;
    }
    if lines.len() == 0 || has_frozen {
        return frozen_lines(lines);
    }
    proof {
        assert(!any_frozen(lines@));
        assert(lines@[0].frozen_value is None);
        assert(!all_frozen(lines@));
    }
    let priority_sets = match lines_by_priority(lines) {
        Ok(v) => v,
        Err(e) => {
            return Err(e);
        },
    };
    proof {
        assert(groups_view(priority_sets@) == spec_grouping(lines@));
    }
    normalized_lines(&priority_sets, quantization)
}

/// Given a set of line items, get the total amount alone: the same total,
/// under the same success and failure conditions, as [`get_totals`].
pub fn reckon_lines(lines: Vec<LineItem>, quantization: u32) -> (r: Result<Dec, TabulationError>)
    requires
        quantization <= MAX_SCALE,
    ensures
        r is Ok ==> r->Ok_0.wf(),
        all_frozen(lines@) ==> ({
            &&& (r is Ok) == ({
                &&& spec_frozen_entries(lines@) is Some
                &&& spec_sum_entries(spec_frozen_entries(lines@)->Some_0) is Some
                &&& spec_discount_entries(spec_frozen_entries(lines@)->Some_0) is Some
            })
            &&& r is Ok ==> Some(r->Ok_0) == spec_sum_entries(spec_frozen_entries(lines@)->Some_0)
        }),
        (any_frozen(lines@) && !all_frozen(lines@)) ==> r is Err && r->Err_0->ErrorString_0@
            == "Unfrozen line found!"@,
        (!any_frozen(lines@) && lines@.len() > 0) ==> ({
            let folded = spec_fold_tiers(spec_grouping(lines@), quantization);
            &&& (!cascade_floors_ok(lines@) ==> r is Err)
            &&& r is Ok ==> cascade_floors_ok(lines@) && folded is Some && r->Ok_0
                == folded->Some_0.0
            &&& (cascade_floors_ok(lines@) && tabulation_in_range(lines@, quantization)) ==> r
                is Ok
            &&& (cascade_floors_ok(lines@) && tabulation_missing_anchor(lines@, quantization))
                ==> r is Err && r->Err_0->ErrorString_0@ == no_line_msg()
        }),
{
    match get_totals(lines, quantization) {
        Ok(v) => Ok(v.0),
        Err(e) => Err(e),
    }
}

/// The transport form of a result: the total and discount quantized and
/// rendered as decimal strings, and each line id paired with its resolved
/// value's digits.
pub fn calculation_from_totals(
    total: &Dec,
    discount: &Dec,
    subtotals: &LineValueMap,
    quantization: u32,
) -> (r: Calculation)
    requires
        total.wf(),
        discount.wf(),
        subtotals.inv(),
    ensures
        r.total@ == string_rep(
            spec_quantize(*total, quantization).mantissa as int,
            spec_quantize(*total, quantization).scale as int,
        ),
        r.discount@ == string_rep(
            spec_quantize(*discount, quantization).mantissa as int,
            spec_quantize(*discount, quantization).scale as int,
        ),
        r.subtotals@.len() == subtotals@.len(),
        forall|i: int|
            0 <= i < subtotals@.len() ==> (#[trigger] r.subtotals@[i]).0 == subtotals@[i].id
                && r.subtotals@[i].1@ == string_rep(
                subtotals@[i].value.mantissa as int,
                subtotals@[i].value.scale as int,
            ),
{
    let mut pairs: Vec<(i32, String)> = Vec::new();
    let mut i: usize = 0;
    while i < subtotals.len()
        invariant
            subtotals.inv(),
            i <= subtotals@.len(),
            pairs@.len() == i,
            forall|j: int|
                0 <= j < i ==> (#[trigger] pairs@[j]).0 == subtotals@[j].id && pairs@[j].1@
                    == string_rep(
                    subtotals@[j].value.mantissa as int,
                    subtotals@[j].value.scale as int,
                ),
        decreases subtotals@.len() - i,
    {
        let e = subtotals.at(i);
        let text = dec_to_string(&e.value);
        pairs.push((e.id, text));
        i = i + 1;
    }
    Calculation {
        total: value_string(total, quantization),
        discount: value_string(discount, quantization),
        subtotals: pairs,
    }
}

} // verus!
