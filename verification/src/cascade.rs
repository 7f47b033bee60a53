//! The cascade redistributor: funding an amount by reducing
//! previously-resolved lines proportionally, under a protection floor.

use vstd::prelude::*;

use crate::data::TabulationError;
use crate::decimal::{spec_sub, spec_mul, spec_div, dec_sub, dec_mul, dec_div, Dec, MAX_SCALE};
use crate::valuemap::{Entry, LineValueMap};

verus! {

/// One proportional reduction: which line gives the amount up.
#[derive(Clone, Copy, PartialEq, Eq, Structural, Debug)]
pub struct Reduction {
    /// The id of the line reduced.
    pub id: i32,
    /// The priority of the line reduced.
    pub priority: i16,
    /// How much is taken from the line, unquantized.
    pub amount: Dec,
}

/// The proxy total: the basis with every protected candidate's value
/// subtracted, left to right. Protected lines sit at or above the floor:
/// they are shielded from reduction, so their share of the basis is removed
/// before proportions are taken.
pub open spec fn spec_proxy(basis: Dec, floor: i16, cands: Seq<Entry>) -> Option<Dec>
    decreases cands.len(),
{
    if cands.len() == 0 {
        Some(basis)
    } else {
        let prev = spec_proxy(basis, floor, cands.drop_last());
        if prev is None {
            None
        } else if cands.last().priority >= floor {
            spec_sub(prev->Some_0, cands.last().value)
        } else {
            prev
        }
    }
}

/// How many candidates lie below the floor and so may absorb a reduction.
pub open spec fn applicable_count(floor: i16, cands: Seq<Entry>) -> int {
    cands.filter(|e: Entry| e.priority < floor).len() as int
}

/// The reductions taken from a prefix of the candidates. An applicable
/// candidate with a non-negative value gives up
/// `amount * (value / proxy)`; when the whole basis is zero, an equal split
/// `amount * (1 / count)` is used instead. Negative-valued lines are never
/// asked to absorb a further reduction. `None` where an operation
/// overflows, a needed denominator is zero, or the candidate count cannot
/// be represented as a decimal.
pub open spec fn spec_red_prefix(
    amount: Dec,
    basis_zero: bool,
    proxy: Dec,
    count: int,
    floor: i16,
    cands: Seq<Entry>,
) -> Option<Seq<Reduction>>
    decreases cands.len(),
{
    if cands.len() == 0 {
        Some(Seq::empty())
    } else {
        let prev = spec_red_prefix(amount, basis_zero, proxy, count, floor, cands.drop_last());
        if prev is None {
            None
        } else {
            let e = cands.last();
            if e.priority < floor && e.value.units() >= 0 {
                let mult = if basis_zero {
                    if count > 0x7FFF_FFFF_FFFF_FFFFint {
                        None
                    } else {
                        spec_div(Dec { mantissa: 1, scale: 0 }, Dec { mantissa: count as i128, scale: 0 })
                    }
                } else {
                    if proxy.mantissa == 0 {
                        None
                    } else {
                        spec_div(e.value, proxy)
                    }
                };
                if mult is None {
                    None
                } else if spec_mul(amount, mult->Some_0) is None {
                    None
                } else {
                    Some(
                        prev->Some_0.push(
                            Reduction {
                                id: e.id,
                                priority: e.priority,
                                amount: spec_mul(amount, mult->Some_0)->Some_0,
                            },
                        ),
                    )
                }
            } else {
                Some(prev->Some_0)
            }
        }
    }
}

/// Once the proxy computation fails on a prefix, it fails on the whole.
proof fn lemma_proxy_none_extends(basis: Dec, floor: i16, cands: Seq<Entry>, i: int)
    requires
        0 <= i <= cands.len(),
        spec_proxy(basis, floor, cands.subrange(0, i)) is None,
    ensures
        spec_proxy(basis, floor, cands) is None,
    decreases cands.len() - i,
{
    if i == cands.len() {
        assert(cands.subrange(0, i) =~= cands);
    } else {
        assert(cands.subrange(0, i + 1).drop_last() =~= cands.subrange(0, i));
        lemma_proxy_none_extends(basis, floor, cands, i + 1);
    }
}

/// Once the reduction list fails on a prefix, it fails on the whole.
proof fn lemma_red_none_extends(
    amount: Dec,
    basis_zero: bool,
    proxy: Dec,
    count: int,
    floor: i16,
    cands: Seq<Entry>,
    i: int,
)
    requires
        0 <= i <= cands.len(),
        spec_red_prefix(amount, basis_zero, proxy, count, floor, cands.subrange(0, i)) is None,
    ensures
        spec_red_prefix(amount, basis_zero, proxy, count, floor, cands) is None,
    decreases cands.len() - i,
{
    if i == cands.len() {
        assert(cands.subrange(0, i) =~= cands);
    } else {
        assert(cands.subrange(0, i + 1).drop_last() =~= cands.subrange(0, i));
        lemma_red_none_extends(amount, basis_zero, proxy, count, floor, cands, i + 1);
    }
}

/// The whole redistribution over a candidate map.
pub open spec fn spec_distribute_reduction(
    basis: Dec,
    amount: Dec,
    floor: i16,
    cands: Seq<Entry>,
) -> Option<Seq<Reduction>> {
    let proxy = spec_proxy(basis, floor, cands);
    if proxy is None {
        None
    } else {
        spec_red_prefix(
            amount,
            basis.mantissa == 0,
            proxy->Some_0,
            applicable_count(floor, cands),
            floor,
            cands,
        )
    }
}

/// Given a total basis, an amount that must be funded by reducing the
/// already-resolved lines, a protection floor and the candidate map,
/// produce the per-line proportional reductions, unquantized and in
/// candidate order. The caller subtracts them from the running subtotals.
pub fn distribute_reduction(
    total: &Dec,
    distributed_amount: &Dec,
    cascade_under: i16,
    line_values: &LineValueMap,
    quantization: u32,
) -> (r: Result<Vec<Reduction>, TabulationError>)
    requires
        total.wf(),
        distributed_amount.wf(),
        line_values.inv(),
        quantization <= MAX_SCALE,
    ensures
        (r is Ok) == (spec_distribute_reduction(
            *total,
            *distributed_amount,
            cascade_under,
            line_values@,
        ) is Some),
        r is Ok ==> spec_distribute_reduction(
            *total,
            *distributed_amount,
            cascade_under,
            line_values@,
        ) == Some(r->Ok_0@),
        r is Ok ==> forall|k: int|
            0 <= k < r->Ok_0@.len() ==> (#[trigger] r->Ok_0@[k]).amount.wf(),
{
    let basis_zero = total.mantissa == 0;
    // First pass: the proxy total and the applicable candidate count.
    let mut proxy = *total;
    let mut count: usize = 0;
    let mut i: usize = 0;
    proof {
        assert(line_values@.subrange(0, 0) =~= Seq::<Entry>::empty());
        reveal(Seq::filter);
    }
    while i < line_values.len()
        invariant
            line_values.inv(),
            total.wf(),
            i <= line_values@.len(),
            proxy.wf(),
            Some(proxy) == spec_proxy(*total, cascade_under, line_values@.subrange(0, i as int)),
            count == applicable_count(cascade_under, line_values@.subrange(0, i as int)),
            count <= i,
        decreases line_values@.len() - i,
    {
        proof {
            reveal(Seq::filter);
            assert(line_values@.subrange(0, i + 1).drop_last() =~= line_values@.subrange(
                0,
                i as int,
            ));
            assert(line_values@.subrange(0, i + 1).last() == line_values@[i as int]);
        }
        let e = line_values.at(i);
        if e.priority >= cascade_under {
            proxy = match dec_sub(&proxy, &e.value) {
                Some(v) => v,
                None => {
                    proof {
                        lemma_proxy_none_extends(*total, cascade_under, line_values@, i + 1);
                    }
                    return Err(TabulationError::from_text(
                        "Decimal overflow while tabulating line items.",
                    ));
                },
            };
        } else {
            count = count + 1;
        }
        i = i + 1;
    }
    proof {
        assert(line_values@.subrange(0, line_values@.len() as int) =~= line_values@);
    }
    // Second pass: one proportional share per applicable, non-negative line.
    let mut reductions: Vec<Reduction> = Vec::new();
    let ghost full_proxy = proxy;
    let ghost full_count = count as int;
    let mut k: usize = 0;
    while k < line_values.len()
        invariant
            line_values.inv(),
            total.wf(),
            distributed_amount.wf(),
            proxy == full_proxy,
            proxy.wf(),
            count == full_count,
            Some(full_proxy) == spec_proxy(*total, cascade_under, line_values@),
            full_count == applicable_count(cascade_under, line_values@),
            count <= line_values@.len(),
            basis_zero == (total.mantissa == 0),
            k <= line_values@.len(),
            Some(reductions@) == spec_red_prefix(
                *distributed_amount,
                basis_zero,
                full_proxy,
                full_count,
                cascade_under,
                line_values@.subrange(0, k as int),
            ),
            forall|j: int| 0 <= j < reductions@.len() ==> (#[trigger] reductions@[j]).amount.wf(),
        decreases line_values@.len() - k,
    {
        proof {
            assert(line_values@.subrange(0, k + 1).drop_last() =~= line_values@.subrange(
                0,
                k as int,
            ));
            assert(line_values@.subrange(0, k + 1).last() == line_values@[k as int]);
        }
        let e = line_values.at(k);
        if e.priority < cascade_under && !e.value.is_negative() {
            let mult: Dec;
            if basis_zero {
                if count as u64 > 0x7FFF_FFFF_FFFF_FFFFu64 {
                    proof {
                        lemma_red_none_extends(
                            *distributed_amount,
                            basis_zero,
                            full_proxy,
                            full_count,
                            cascade_under,
                            line_values@,
                            k + 1,
                        );
                    }
                    return Err(TabulationError::from_text("Way too many lines to distribute to!"));
                }
                proof {
                    // The candidate at hand is applicable, so the
                    // applicable count cannot be zero.
                    line_values@.lemma_filter_contains(
                        |c: Entry| c.priority < cascade_under,
                        k as int,
                    );
                    assert(applicable_count(cascade_under, line_values@) > 0);
                }
                let denominator = Dec::new(count as i128, 0);
                let one = Dec::new(1, 0);
                mult = match dec_div(&one, &denominator) {
                    Some(v) => v,
                    None => {
                        proof {
                            lemma_red_none_extends(
                                *distributed_amount,
                                basis_zero,
                                full_proxy,
                                full_count,
                                cascade_under,
                                line_values@,
                                k + 1,
                            );
                        }
                        return Err(TabulationError::from_text(
                            "Decimal overflow while tabulating line items.",
                        ));
                    },
                };
            } else {
                if proxy.mantissa == 0 {
                    proof {
                        lemma_red_none_extends(
                            *distributed_amount,
                            basis_zero,
                            full_proxy,
                            full_count,
                            cascade_under,
                            line_values@,
                            k + 1,
                        );
                    }
                    return Err(TabulationError::from_text(
                        "Cascade basis left nothing to divide by.",
                    ));
                }
                mult = match dec_div(&e.value, &proxy) {
                    Some(v) => v,
                    None => {
                        proof {
                            lemma_red_none_extends(
                                *distributed_amount,
                                basis_zero,
                                full_proxy,
                                full_count,
                                cascade_under,
                                line_values@,
                                k + 1,
                            );
                        }
                        return Err(TabulationError::from_text(
                            "Decimal overflow while tabulating line items.",
                        ));
                    },
                };
            }
            let red = match dec_mul(distributed_amount, &mult) {
                Some(v) => v,
                None => {
                    proof {
                        lemma_red_none_extends(
                            *distributed_amount,
                            basis_zero,
                            full_proxy,
                            full_count,
                            cascade_under,
                            line_values@,
                            k + 1,
                        );
                    }
                    return Err(TabulationError::from_text(
                        "Decimal overflow while tabulating line items.",
                    ));
                },
            };
            reductions.push(Reduction { id: e.id, priority: e.priority, amount: red });
        }
        k = k + 1;
    }
    proof {
        assert(line_values@.subrange(0, line_values@.len() as int) =~= line_values@);
    }
    Ok(reductions)
}

} // verus!
