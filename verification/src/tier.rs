//! The tier accumulator: folding one priority tier of lines into the
//! running total, discount and per-line values.

use vstd::prelude::*;

use crate::data::{LineItem, TabulationError};
use crate::decimal::{
    spec_parse, spec_add, spec_sub, spec_mul, spec_div, spec_quantize, quantize, quantized_zero,
    parse_dec, dec_add, dec_sub, dec_mul, dec_div, Dec, MAX_SCALE,
};
use crate::valuemap::{has_key, key_index, seq_insert, Entry, LineValueMap};

verus! {

/// What one line contributes, measured against the running total carried
/// into its tier.
#[derive(Clone, Copy, PartialEq, Eq, Structural, Debug)]
pub struct LineOutcome {
    /// The line's own resolved value: its percentage-derived part plus its
    /// static amount.
    pub value: Dec,
    /// The part funded by reducing lower lines.
    pub cascaded: Dec,
    /// The part added to the grand total.
    pub added: Dec,
}

/// The outcome of resolving one line against `total`, exactly as the
/// executable code computes it; `None` where a string fails to parse, a
/// decimal operation overflows, or a reverse-solved percentage divides by
/// zero. The percentage contribution `working` follows the three modes:
/// forward (`total * pct/100`), reverse cascaded (`(total / (1 + p)) * p`),
/// and reverse added (`base * (1 / (1 - p)) - base` over `base = total +
/// static amount`).
pub open spec fn spec_line_eval(total: Dec, line: LineItem, q: u32) -> Option<LineOutcome> {
    let zero = Dec { mantissa: 0, scale: q };
    let one = Dec { mantissa: 1, scale: 0 };
    let centi = Dec { mantissa: 1, scale: 2 };
    if spec_parse(line.amount@) is None {
        None
    } else {
        let amt = spec_parse(line.amount@)->Some_0;
        let cascaded0 = if line.cascade_amount {
            spec_add(zero, amt)
        } else {
            Some(zero)
        };
        let added0 = if line.cascade_amount {
            Some(zero)
        } else {
            spec_add(zero, amt)
        };
        if cascaded0 is None || added0 is None || spec_parse(line.percentage@) is None {
            None
        } else {
            let pct = spec_parse(line.percentage@)->Some_0;
            if spec_mul(centi, pct) is None {
                None
            } else {
                let multiplier = spec_mul(centi, pct)->Some_0;
                let working_opt = spec_working(total, line, amt, multiplier, zero, one);
                if working_opt is None {
                    None
                } else {
                    let working = working_opt->Some_0;
                    let cascaded1 = if line.cascade_percentage {
                        spec_add(cascaded0->Some_0, working)
                    } else {
                        cascaded0
                    };
                    let added1 = if line.cascade_percentage {
                        added0
                    } else {
                        spec_add(added0->Some_0, working)
                    };
                    if cascaded1 is None || added1 is None || spec_add(working, amt) is None {
                        None
                    } else {
                        Some(
                            LineOutcome {
                                value: spec_add(working, amt)->Some_0,
                                cascaded: cascaded1->Some_0,
                                added: added1->Some_0,
                            },
                        )
                    }
                }
            }
        }
    }
}

/// The percentage-derived part of a line's value, per the line's mode.
pub open spec fn spec_working(
    total: Dec,
    line: LineItem,
    amt: Dec,
    multiplier: Dec,
    zero: Dec,
    one: Dec,
) -> Option<Dec> {
    if line.back_into_percentage {
        if spec_add(multiplier, one) is None {
            None
        } else {
            let divisor = spec_add(multiplier, one)->Some_0;
            if line.cascade_percentage {
                if divisor.mantissa == 0 {
                    None
                } else if spec_div(total, divisor) is None {
                    None
                } else {
                    spec_mul(spec_div(total, divisor)->Some_0, multiplier)
                }
            } else {
                if spec_sub(one, multiplier) is None {
                    None
                } else {
                    let denom = spec_sub(one, multiplier)->Some_0;
                    if denom.mantissa == 0 {
                        None
                    } else if spec_div(one, denom) is None {
                        None
                    } else {
                        let factor = spec_div(one, denom)->Some_0;
                        let additional = if line.cascade_amount {
                            zero
                        } else {
                            amt
                        };
                        if spec_add(total, additional) is None {
                            None
                        } else {
                            let initial = spec_add(total, additional)->Some_0;
                            if spec_mul(initial, factor) is None {
                                None
                            } else {
                                spec_sub(spec_mul(initial, factor)->Some_0, initial)
                            }
                        }
                    }
                }
            }
        }
    } else {
        spec_mul(total, multiplier)
    }
}

/// Resolve one line against the running total. Each outcome field is a
/// well-formed decimal, and the result matches [`spec_line_eval`] exactly.
pub fn eval_line(total: &Dec, line: &LineItem, q: u32) -> (r: Result<LineOutcome, TabulationError>)
    requires
        total.wf(),
        q <= MAX_SCALE,
    ensures
        (r is Ok) == (spec_line_eval(*total, *line, q) is Some),
        r is Ok ==> spec_line_eval(*total, *line, q) == Some(r->Ok_0) && r->Ok_0.value.wf()
            && r->Ok_0.cascaded.wf() && r->Ok_0.added.wf(),
{
    let zero = quantized_zero(q);
    let one = Dec::new(1, 0);
    let centi = Dec::new(1, 2);
    let amt = match parse_dec(line.amount.as_str()) {
        Ok(v) => v,
        Err(m) => {
            return Err(TabulationError::ErrorString(m));
        },
    };
    let cascaded0: Dec;
    let added0: Dec;
    if line.cascade_amount {
        cascaded0 = match dec_add(&zero, &amt) {
            Some(v) => v,
            None => {
                return Err(TabulationError::from_text(
                    "Decimal overflow while tabulating line items.",
                ));
            },
        };
        added0 = zero;
    } else {
        cascaded0 = zero;
        added0 = match dec_add(&zero, &amt) {
            Some(v) => v,
            None => {
                return Err(TabulationError::from_text(
                    "Decimal overflow while tabulating line items.",
                ));
            },
        };
    }
    let pct = match parse_dec(line.percentage.as_str()) {
        Ok(v) => v,
        Err(m) => {
            return Err(TabulationError::ErrorString(m));
        },
    };
    let multiplier = match dec_mul(&centi, &pct) {
        Some(v) => v,
        None => {
            return Err(TabulationError::from_text(
                "Decimal overflow while tabulating line items.",
            ));
        },
    };
    let working: Dec;
    if line.back_into_percentage {
        let divisor = match dec_add(&multiplier, &one) {
            Some(v) => v,
            None => {
                return Err(TabulationError::from_text(
                    "Decimal overflow while tabulating line items.",
                ));
            },
        };
        if line.cascade_percentage {
            if divisor.mantissa == 0 {
                return Err(TabulationError::from_text("Percentage leaves nothing to divide by."));
            }
            let ratio = match dec_div(total, &divisor) {
                Some(v) => v,
                None => {
                    return Err(TabulationError::from_text(
                        "Decimal overflow while tabulating line items.",
                    ));
                },
            };
            working = match dec_mul(&ratio, &multiplier) {
                Some(v) => v,
                None => {
                    return Err(TabulationError::from_text(
                        "Decimal overflow while tabulating line items.",
                    ));
                },
            };
        } else {
            let denom = match dec_sub(&one, &multiplier) {
                Some(v) => v,
                None => {
                    return Err(TabulationError::from_text(
                        "Decimal overflow while tabulating line items.",
                    ));
                },
            };
            if denom.mantissa == 0 {
                return Err(TabulationError::from_text("Percentage leaves nothing to divide by."));
            }
            let factor = match dec_div(&one, &denom) {
                Some(v) => v,
                None => {
                    return Err(TabulationError::from_text(
                        "Decimal overflow while tabulating line items.",
                    ));
                },
            };
            let additional = if line.cascade_amount {
                zero
            } else {
                amt
            };
            let initial = match dec_add(total, &additional) {
                Some(v) => v,
                None => {
                    return Err(TabulationError::from_text(
                        "Decimal overflow while tabulating line items.",
                    ));
                },
            };
            let grossed = match dec_mul(&initial, &factor) {
                Some(v) => v,
                None => {
                    return Err(TabulationError::from_text(
                        "Decimal overflow while tabulating line items.",
                    ));
                },
            };
            working = match dec_sub(&grossed, &initial) {
                Some(v) => v,
                None => {
                    return Err(TabulationError::from_text(
                        "Decimal overflow while tabulating line items.",
                    ));
                },
            };
        }
    } else {
        working = match dec_mul(total, &multiplier) {
            Some(v) => v,
            None => {
                return Err(TabulationError::from_text(
                    "Decimal overflow while tabulating line items.",
                ));
            },
        };
    }
    let cascaded1: Dec;
    let added1: Dec;
    if line.cascade_percentage {
        cascaded1 = match dec_add(&cascaded0, &working) {
            Some(v) => v,
            None => {
                return Err(TabulationError::from_text(
                    "Decimal overflow while tabulating line items.",
                ));
            },
        };
        added1 = added0;
    } else {
        cascaded1 = cascaded0;
        added1 = match dec_add(&added0, &working) {
            Some(v) => v,
            None => {
                return Err(TabulationError::from_text(
                    "Decimal overflow while tabulating line items.",
                ));
            },
        };
    }
    let value = match dec_add(&working, &amt) {
        Some(v) => v,
        None => {
            return Err(TabulationError::from_text(
                "Decimal overflow while tabulating line items.",
            ));
        },
    };
    Ok(LineOutcome { value, cascaded: cascaded1, added: added1 })
}

/// The candidates a cascading line may reduce: the already-resolved
/// entries strictly below its priority, in map order.
pub open spec fn cands_of(entries: Seq<Entry>, priority: i16) -> Seq<Entry> {
    entries.filter(|e: Entry| e.priority < priority)
}

/// The accumulation the per-line pass of a tier produces: the running
/// discount, the tier lines' own values, the tier lines' added amounts, and
/// the reductions its cascading lines levy on earlier tiers.
pub ghost struct TierScan {
    /// The discount carried so far, grown by each negative line value.
    pub discount: Dec,
    /// Each tier line's identity and resolved value, in tier order.
    pub working: Seq<Entry>,
    /// Each tier line's added-on-top amount, where it is not zero.
    pub summable: Seq<Entry>,
    /// The reductions levied on lower-priority lines, in order.
    pub reductions: Seq<crate::cascade::Reduction>,
}

/// The per-line pass over a tier: each line is resolved against the same
/// incoming total, while the discount, the reduction list and the two tier
/// maps grow line by line. `entries` is the map carried in from the lower
/// tiers; a line whose cascaded part is not zero levies reductions on the
/// earlier entries below its own priority, measured against the total less
/// the discount accumulated so far.
pub open spec fn spec_tier_scan(
    total: Dec,
    discount0: Dec,
    entries: Seq<Entry>,
    q: u32,
    lines: Seq<LineItem>,
) -> Option<TierScan>
    decreases lines.len(),
{
    if lines.len() == 0 {
        Some(
            TierScan {
                discount: discount0,
                working: Seq::empty(),
                summable: Seq::empty(),
                reductions: Seq::empty(),
            },
        )
    } else {
        let prev_o = spec_tier_scan(total, discount0, entries, q, lines.drop_last());
        if prev_o is None {
            None
        } else {
            let prev = prev_o->Some_0;
            let line = lines.last();
            if spec_line_eval(total, line, q) is None {
                None
            } else {
                let o = spec_line_eval(total, line, q)->Some_0;
                let reds1 = if o.cascaded.units() != 0 {
                    let cands = cands_of(entries, line.priority);
                    if spec_sub(total, prev.discount) is None {
                        None
                    } else {
                        let basis = spec_sub(total, prev.discount)->Some_0;
                        match crate::cascade::spec_distribute_reduction(
                            basis,
                            o.cascaded,
                            line.cascade_under,
                            cands,
                        ) {
                            None => None,
                            Some(reds) => Some(prev.reductions + reds),
                        }
                    }
                } else {
                    Some(prev.reductions)
                };
                if reds1 is None {
                    None
                } else {
                    let summable1 = if o.added.units() != 0 {
                        seq_insert(
                            prev.summable,
                            Entry { id: line.id, priority: line.priority, value: o.added },
                        )
                    } else {
                        prev.summable
                    };
                    let working1 = seq_insert(
                        prev.working,
                        Entry { id: line.id, priority: line.priority, value: o.value },
                    );
                    let discount1 = if o.value.units() < 0 {
                        spec_add(prev.discount, o.value)
                    } else {
                        Some(prev.discount)
                    };
                    if discount1 is None {
                        None
                    } else {
                        Some(
                            TierScan {
                                discount: discount1->Some_0,
                                working: working1,
                                summable: summable1,
                                reductions: reds1->Some_0,
                            },
                        )
                    }
                }
            }
        }
    }
}

/// The reductions applied in order to the carried-in entries: each is
/// subtracted from the value of the entry with its identity. `None` when an
/// identity is missing or a subtraction overflows.
pub open spec fn spec_apply_reductions(
    entries: Seq<Entry>,
    reds: Seq<crate::cascade::Reduction>,
) -> Option<Seq<Entry>>
    decreases reds.len(),
{
    if reds.len() == 0 {
        Some(entries)
    } else {
        match spec_apply_reductions(entries, reds.drop_last()) {
            None => None,
            Some(cur) => {
                let red = reds.last();
                if !has_key(cur, red.id, red.priority) {
                    None
                } else {
                    let i = key_index(cur, red.id, red.priority);
                    match spec_sub(cur[i].value, red.amount) {
                        None => None,
                        Some(nv) => Some(
                            cur.update(
                                i,
                                Entry { id: cur[i].id, priority: cur[i].priority, value: nv },
                            ),
                        ),
                    }
                }
            },
        }
    }
}

/// Every tier line's value inserted into the carried-forward entries, in
/// tier order, overwriting an entry that shares the identity.
pub open spec fn spec_insert_all(entries: Seq<Entry>, items: Seq<Entry>) -> Seq<Entry>
    decreases items.len(),
{
    if items.len() == 0 {
        entries
    } else {
        seq_insert(spec_insert_all(entries, items.drop_last()), items.last())
    }
}

/// The tier's added amounts summed left to right onto a quantized zero.
pub open spec fn spec_sum_added(q: u32, items: Seq<Entry>) -> Option<Dec>
    decreases items.len(),
{
    if items.len() == 0 {
        Some(Dec { mantissa: 0, scale: q })
    } else {
        match spec_sum_added(q, items.drop_last()) {
            None => None,
            Some(acc) => spec_add(acc, items.last().value),
        }
    }
}

/// What folding one tier returns: the total grown by the quantized sum of
/// the added amounts, the accumulated discount, and the entries with the
/// reductions applied and the tier's own values inserted.
pub open spec fn spec_priority_total(
    total: Dec,
    discount: Dec,
    entries: Seq<Entry>,
    q: u32,
    lines: Seq<LineItem>,
) -> Option<(Dec, Dec, Seq<Entry>)> {
    match spec_tier_scan(total, discount, entries, q, lines) {
        None => None,
        Some(acc) => match spec_apply_reductions(entries, acc.reductions) {
            None => None,
            Some(reduced) => match spec_sum_added(q, acc.summable) {
                None => None,
                Some(add_on) => match spec_add(total, spec_quantize(add_on, q)) {
                    None => None,
                    Some(total1) => Some(
                        (total1, acc.discount, spec_insert_all(reduced, acc.working)),
                    ),
                },
            },
        },
    }
}

/// Once the tier scan fails on a prefix of the lines, it fails on all.
proof fn lemma_scan_none_extends(
    total: Dec,
    discount0: Dec,
    entries: Seq<Entry>,
    q: u32,
    lines: Seq<LineItem>,
    i: int,
)
    requires
        0 <= i <= lines.len(),
        spec_tier_scan(total, discount0, entries, q, lines.subrange(0, i)) is None,
    ensures
        spec_tier_scan(total, discount0, entries, q, lines) is None,
    decreases lines.len() - i,
{
    if i == lines.len() {
        assert(lines.subrange(0, i) =~= lines);
    } else {
        assert(lines.subrange(0, i + 1).drop_last() =~= lines.subrange(0, i));
        lemma_scan_none_extends(total, discount0, entries, q, lines, i + 1);
    }
}

/// Once applying the reductions fails on a prefix, it fails on all.
proof fn lemma_apply_none_extends(
    entries: Seq<Entry>,
    reds: Seq<crate::cascade::Reduction>,
    i: int,
)
    requires
        0 <= i <= reds.len(),
        spec_apply_reductions(entries, reds.subrange(0, i)) is None,
    ensures
        spec_apply_reductions(entries, reds) is None,
    decreases reds.len() - i,
{
    if i == reds.len() {
        assert(reds.subrange(0, i) =~= reds);
    } else {
        assert(reds.subrange(0, i + 1).drop_last() =~= reds.subrange(0, i));
        lemma_apply_none_extends(entries, reds, i + 1);
    }
}

/// Once the added sum fails on a prefix, it fails on all.
proof fn lemma_sum_added_none_extends(q: u32, items: Seq<Entry>, i: int)
    requires
        0 <= i <= items.len(),
        spec_sum_added(q, items.subrange(0, i)) is None,
    ensures
        spec_sum_added(q, items) is None,
    decreases items.len() - i,
{
    if i == items.len() {
        assert(items.subrange(0, i) =~= items);
    } else {
        assert(items.subrange(0, i + 1).drop_last() =~= items.subrange(0, i));
        lemma_sum_added_none_extends(q, items, i + 1);
    }
}

/// Determine the effect of one priority tier on the running state. Every
/// line of the tier is resolved against the same incoming total, cascading
/// lines levy their proportional reductions on the lower tiers' entries,
/// and the quantized sum of the added amounts grows the total. The result
/// is exactly what [`spec_priority_total`] gives.
pub fn priority_total(
    current: (Dec, Dec, LineValueMap),
    quantization: u32,
    priority_set: &Vec<LineItem>,
) -> (r: Result<(Dec, Dec, LineValueMap), TabulationError>)
    requires
        current.0.wf(),
        current.1.wf(),
        current.2.inv(),
        quantization <= MAX_SCALE,
    ensures
        (r is Ok) == (spec_priority_total(
            current.0,
            current.1,
            current.2@,
            quantization,
            priority_set@,
        ) is Some),
        r is Ok ==> ({
            let m = spec_priority_total(
                current.0,
                current.1,
                current.2@,
                quantization,
                priority_set@,
            )->Some_0;
            &&& r->Ok_0.0 == m.0
            &&& r->Ok_0.1 == m.1
            &&& r->Ok_0.2@ == m.2
            &&& r->Ok_0.0.wf()
            &&& r->Ok_0.0.scale <= crate::decimal::scale_max(current.0.scale, quantization)
            &&& r->Ok_0.1.wf()
            &&& r->Ok_0.2.inv()
        }),
{
    let current_total = current.0;
    let discount0 = current.1;
    let subtotals = &current.2;
    let mut discount = discount0;
    let mut working_subtotals = LineValueMap::new();
    let mut summable_totals = LineValueMap::new();
    let mut reductions: Vec<crate::cascade::Reduction> = Vec::new();
    let ghost lines = priority_set@;
    let mut li: usize = 0;
    proof {
        assert(lines.subrange(0, 0) =~= Seq::<LineItem>::empty());
    }
    while li < priority_set.len()
        invariant
            current.0 == current_total,
            current.1 == discount0,
            current.2@ == subtotals@,
            current_total.wf(),
            discount0.wf(),
            subtotals.inv(),
            quantization <= MAX_SCALE,
            lines == priority_set@,
            li <= lines.len(),
            discount.wf(),
            working_subtotals.inv(),
            summable_totals.inv(),
            forall|j: int| 0 <= j < reductions@.len() ==> (#[trigger] reductions@[j]).amount.wf(),
            spec_tier_scan(current_total, discount0, subtotals@, quantization, lines.subrange(0, li as int))
                == Some(TierScan {
                discount: discount,
                working: working_subtotals@,
                summable: summable_totals@,
                reductions: reductions@,
            }),
        decreases lines.len() - li,
    {
        proof {
            assert(lines.subrange(0, li + 1).drop_last() =~= lines.subrange(0, li as int));
            assert(lines.subrange(0, li + 1).last() == lines[li as int]);
        }
        let line = &priority_set[li];
        let o = match eval_line(&current_total, line, quantization) {
            Ok(v) => v,
            Err(e) => {
                proof {
                    assert(spec_line_eval(current_total, lines[li as int], quantization) is None);
                    assert(spec_tier_scan(
                        current_total,
                        discount0,
                        subtotals@,
                        quantization,
                        lines.subrange(0, li + 1),
                    ) is None);
                    lemma_scan_none_extends(
                        current_total,
                        discount0,
                        subtotals@,
                        quantization,
                        lines,
                        li + 1,
                    );
                    assert(spec_priority_total(
                        current_total,
                        discount0,
                        subtotals@,
                        quantization,
                        lines,
                    ) is None);

                }
                return Err(e);
            },
        };
        if !o.cascaded.is_zero() {
            // Collect the candidates: every already-resolved line strictly
            // below this line's priority, in map order.
            let mut cands = LineValueMap::new();
            let lp = line.priority;
            let mut ci: usize = 0;
            proof {
                reveal(Seq::filter);
                assert(subtotals@.subrange(0, 0) =~= Seq::<Entry>::empty());
            }
            while ci < subtotals.len()
                invariant
                    subtotals.inv(),
                    ci <= subtotals@.len(),
                    cands@ == cands_of(subtotals@.subrange(0, ci as int), lp),
                    forall|k: int|
                        0 <= k < cands@.len() ==> exists|x: int|
                            0 <= x < ci && subtotals@[x] == (#[trigger] cands@[k]),
                    cands.inv(),
                decreases subtotals@.len() - ci,
            {
                proof {
                    reveal(Seq::filter);
                    assert(subtotals@.subrange(0, ci + 1).drop_last() =~= subtotals@.subrange(
                        0,
                        ci as int,
                    ));
                    assert(subtotals@.subrange(0, ci + 1).last() == subtotals@[ci as int]);
                }
                let e = subtotals.at(ci);
                if e.priority < lp {
                    let ghost old_cands = cands@;
                    proof {
                        assert forall|k: int| 0 <= k < cands@.len() implies !(
                        #[trigger] cands@[k]).is_key(e.id, e.priority) by {
                            let x = choose|x: int|
                                0 <= x < ci && subtotals@[x] == (#[trigger] cands@[k]);
                            assert(!subtotals@[x].is_key(
                                subtotals@[ci as int].id,
                                subtotals@[ci as int].priority,
                            ));
                        }
                        crate::valuemap::lemma_seq_insert_fresh(
                            cands@,
                            Entry { id: e.id, priority: e.priority, value: e.value },
                        );
                    }
                    cands.insert(e.id, e.priority, e.value);
                    proof {
                        assert forall|k: int| 0 <= k < cands@.len() implies exists|x: int|
                            0 <= x < ci + 1 && subtotals@[x] == (#[trigger] cands@[k]) by {
                            if k < cands@.len() - 1 {
                                assert(cands@[k] == old_cands[k]);
                                let x = choose|x: int|
                                    0 <= x < ci && subtotals@[x] == old_cands[k];
                                assert(subtotals@[x] == cands@[k]);
                            } else {
                                assert(subtotals@[ci as int] == cands@[k]);
                            }
                        }
                    }
                }
                ci = ci + 1;
            }
            proof {
                assert(subtotals@.subrange(0, subtotals@.len() as int) =~= subtotals@);
                assert(cands@ == cands_of(subtotals@, lines[li as int].priority));
            }
            let basis = match dec_sub(&current_total, &discount) {
                Some(v) => v,
                None => {
                    proof {
                        lemma_scan_none_extends(
                            current_total,
                            discount0,
                            subtotals@,
                            quantization,
                            lines,
                            li + 1,
                        );
                    }
                    return Err(TabulationError::from_text(
                        "Decimal overflow while tabulating line items.",
                    ));
                },
            };
            let mut reds = match crate::cascade::distribute_reduction(
                &basis,
                &o.cascaded,
                line.cascade_under,
                &cands,
                quantization,
            ) {
                Ok(v) => v,
                Err(e) => {
                    proof {
                        lemma_scan_none_extends(
                            current_total,
                            discount0,
                            subtotals@,
                            quantization,
                            lines,
                            li + 1,
                        );
                    }
                    return Err(e);
                },
            };
            reductions.append(&mut reds);
        }
        if !o.added.is_zero() {
            summable_totals.insert(line.id, line.priority, o.added);
        }
        working_subtotals.insert(line.id, line.priority, o.value);
        if o.value.is_negative() {
            discount = match dec_add(&discount, &o.value) {
                Some(v) => v,
                None => {
                    proof {
                        lemma_scan_none_extends(
                            current_total,
                            discount0,
                            subtotals@,
                            quantization,
                            lines,
                            li + 1,
                        );
                    }
                    return Err(TabulationError::from_text(
                        "Decimal overflow while tabulating line items.",
                    ));
                },
            };
        }
        li = li + 1;
    }
    proof {
        assert(lines.subrange(0, lines.len() as int) =~= lines);
    }
    let ghost scan = TierScan {
        discount: discount,
        working: working_subtotals@,
        summable: summable_totals@,
        reductions: reductions@,
    };
    // Apply the reductions to a copy of the carried-in entries.
    let mut new_subtotals = subtotals.duplicate();
    let mut rj: usize = 0;
    proof {
        assert(reductions@.subrange(0, 0) =~= Seq::<crate::cascade::Reduction>::empty());
    }
    while rj < reductions.len()
        invariant
            current.0 == current_total,
            current.1 == discount0,
            current.2@ == subtotals@,
            lines == priority_set@,
            quantization <= MAX_SCALE,
            scan == (TierScan {
                discount: discount,
                working: working_subtotals@,
                summable: summable_totals@,
                reductions: reductions@,
            }),
            spec_tier_scan(current_total, discount0, subtotals@, quantization, lines) == Some(scan),
            subtotals.inv(),
            rj <= reductions@.len(),
            forall|j: int| 0 <= j < reductions@.len() ==> (#[trigger] reductions@[j]).amount.wf(),
            Some(new_subtotals@) == spec_apply_reductions(
                subtotals@,
                reductions@.subrange(0, rj as int),
            ),
            new_subtotals.inv(),
        decreases reductions@.len() - rj,
    {
        proof {
            assert(reductions@.subrange(0, rj + 1).drop_last() =~= reductions@.subrange(
                0,
                rj as int,
            ));
            assert(reductions@.subrange(0, rj + 1).last() == reductions@[rj as int]);
        }
        let red = reductions[rj];
        match new_subtotals.find(red.id, red.priority) {
            None => {
                proof {
                    lemma_apply_none_extends(subtotals@, reductions@, rj + 1);
                }
                return Err(TabulationError::from_text(
                    "Line item missing from subtotals map. How?",
                ));
            },
            Some(ix) => {
                proof {
                    assert(has_key(new_subtotals@, red.id, red.priority));
                    let ki = key_index(new_subtotals@, red.id, red.priority);
                    assert(new_subtotals@[ki].is_key(red.id, red.priority));
                    assert(ki == ix as int);
                }
                let cur = new_subtotals.at(ix).value;
                let nv = match dec_sub(&cur, &red.amount) {
                    Some(v) => v,
                    None => {
                        proof {
                            lemma_apply_none_extends(subtotals@, reductions@, rj + 1);
                        }
                        return Err(TabulationError::from_text(
                            "Decimal overflow while tabulating line items.",
                        ));
                    },
                };
                new_subtotals.set_value_at(ix, nv);
            },
        }
        rj = rj + 1;
    }
    proof {
        assert(reductions@.subrange(0, reductions@.len() as int) =~= reductions@);
    }
    let ghost reduced = new_subtotals@;
    // Insert every tier line's own value.
    let mut wj: usize = 0;
    proof {
        assert(working_subtotals@.subrange(0, 0) =~= Seq::<Entry>::empty());
    }
    while wj < working_subtotals.len()
        invariant
            working_subtotals.inv(),
            wj <= working_subtotals@.len(),
            new_subtotals@ == spec_insert_all(reduced, working_subtotals@.subrange(0, wj as int)),
            new_subtotals.inv(),
            forall|j: int|
                0 <= j < working_subtotals@.len() ==> (#[trigger] working_subtotals@[j]).value.wf(),
        decreases working_subtotals@.len() - wj,
    {
        proof {
            assert(working_subtotals@.subrange(0, wj + 1).drop_last() =~= working_subtotals@
                .subrange(0, wj as int));
            assert(working_subtotals@.subrange(0, wj + 1).last() == working_subtotals@[wj as int]);
        }
        let e = working_subtotals.at(wj);
        new_subtotals.insert(e.id, e.priority, e.value);
        wj = wj + 1;
    }
    proof {
        assert(working_subtotals@.subrange(0, working_subtotals@.len() as int)
            =~= working_subtotals@);
    }
    // Sum the added amounts and quantize onto the running total.
    let mut add_on = quantized_zero(quantization);
    let mut sj: usize = 0;
    proof {
        assert(summable_totals@.subrange(0, 0) =~= Seq::<Entry>::empty());
    }
    while sj < summable_totals.len()
        invariant
            current.0 == current_total,
            current.1 == discount0,
            current.2@ == subtotals@,
            lines == priority_set@,
            scan == (TierScan {
                discount: discount,
                working: working_subtotals@,
                summable: summable_totals@,
                reductions: reductions@,
            }),
            spec_tier_scan(current_total, discount0, subtotals@, quantization, lines) == Some(scan),
            Some(reduced) == spec_apply_reductions(subtotals@, reductions@),
            summable_totals.inv(),
            sj <= summable_totals@.len(),
            add_on.wf(),
            Some(add_on) == spec_sum_added(quantization, summable_totals@.subrange(0, sj as int)),
            quantization <= MAX_SCALE,
        decreases summable_totals@.len() - sj,
    {
        proof {
            assert(summable_totals@.subrange(0, sj + 1).drop_last() =~= summable_totals@.subrange(
                0,
                sj as int,
            ));
            assert(summable_totals@.subrange(0, sj + 1).last() == summable_totals@[sj as int]);
        }
        let e = summable_totals.at(sj);
        add_on = match dec_add(&add_on, &e.value) {
            Some(v) => v,
            None => {
                proof {
                    lemma_sum_added_none_extends(quantization, summable_totals@, sj + 1);
                }
                return Err(TabulationError::from_text(
                    "Decimal overflow while tabulating line items.",
                ));
            },
        };
        sj = sj + 1;
    }
    proof {
        assert(summable_totals@.subrange(0, summable_totals@.len() as int) =~= summable_totals@);
    }
    let quantized_add_on = quantize(&add_on, quantization);
    let new_total = match dec_add(&current_total, &quantized_add_on) {
        Some(v) => v,
        None => {
            return Err(TabulationError::from_text(
                "Decimal overflow while tabulating line items.",
            ));
        },
    };
    Ok((new_total, discount, new_subtotals))
}

} // verus!
