//! The remainder distributor: after quantizing, any leftover fractional
//! units are moved one quantum at a time so that the quantized subtotals
//! sum exactly to the quantized total.

use vstd::prelude::*;

use crate::data::TabulationError;
use crate::decimal::{quantize, quantized_zero, quantum, spec_quantize, Dec, MAX_MANTISSA, MAX_SCALE, pow10};
use crate::decimal::{lemma_multiple_ge, lemma_units_multiple};
use crate::valuemap::{lemma_sum_update, sum_units, Entry, LineValueMap};

verus! {

/// Whether every value in the map carries at most `q` decimal places.
pub open spec fn map_quantized(s: Seq<Entry>, q: u32) -> bool {
    forall|i: int| 0 <= i < s.len() ==> (#[trigger] s[i]).value.scale <= q
}

/// Whether an entry may receive part of the leftover: its value must have
/// the same sign as the leftover, and zero-valued lines are never chosen.
pub open spec fn eligible(e: Entry, positive: bool) -> bool {
    if positive {
        e.value.units() > 0
    } else {
        e.value.units() < 0
    }
}

/// The magnitude of an entry's value, in units.
pub open spec fn mag_units(e: Entry) -> int {
    if e.value.units() >= 0 {
        e.value.units()
    } else {
        -e.value.units()
    }
}

/// The allocation order of the repair queue: for a positive leftover the
/// higher priority is served first (the lower for a negative one); ties go
/// to the larger magnitude, and then to the higher id.
pub open spec fn serves_no_later(a: Entry, b: Entry, positive: bool) -> bool {
    if a.priority != b.priority {
        if positive {
            a.priority > b.priority
        } else {
            a.priority < b.priority
        }
    } else if mag_units(a) != mag_units(b) {
        mag_units(a) > mag_units(b)
    } else {
        a.id >= b.id
    }
}

/// The serving order is transitive.
proof fn lemma_serves_trans(a: Entry, b: Entry, c: Entry, positive: bool)
    requires
        serves_no_later(a, b, positive),
        serves_no_later(b, c, positive),
    ensures
        serves_no_later(a, c, positive),
{
}

/// Whether no entry can absorb a leftover of the given sign.
pub open spec fn none_eligible(s: Seq<Entry>, positive: bool) -> bool {
    forall|i: int| 0 <= i < s.len() ==> !eligible(#[trigger] s[i], positive)
}

/// Whether the leftover and every value it may land on stay inside the
/// representable band, so no step of the repair can overflow.
pub open spec fn repair_in_range(s: Seq<Entry>, leftover: int, q: u32) -> bool {
    let qu = pow10((MAX_SCALE - q) as nat);
    &&& -(MAX_MANTISSA * qu) <= leftover <= MAX_MANTISSA * qu
    &&& forall|i: int|
        0 <= i < s.len() ==> -(MAX_MANTISSA * qu) <= (#[trigger] s[i]).value.units() + leftover
            <= MAX_MANTISSA * qu
}

/// The message raised when a leftover exists and no line can absorb it.
pub open spec fn no_line_msg() -> Seq<char> {
    "No line items to distribute difference to. You may be missing a base price line item, which should be included even if the base price would be zero."@
}

/// The exact running sum of the quantized values, or `None` where a partial
/// sum leaves the representable range.
pub open spec fn spec_quantized_sum(entries: Seq<Entry>, q: u32) -> Option<Dec>
    decreases entries.len(),
{
    if entries.len() == 0 {
        Some(Dec { mantissa: 0, scale: q })
    } else {
        match spec_quantized_sum(entries.drop_last(), q) {
            None => None,
            Some(acc) => crate::decimal::spec_add_exact(
                acc,
                spec_quantize(entries.last().value, q),
            ),
        }
    }
}

/// Once the quantized sum fails on a prefix, it fails on all.
proof fn lemma_quantized_sum_none_extends(entries: Seq<Entry>, q: u32, i: int)
    requires
        0 <= i <= entries.len(),
        spec_quantized_sum(entries.subrange(0, i), q) is None,
    ensures
        spec_quantized_sum(entries, q) is None,
    decreases entries.len() - i,
{
    if i == entries.len() {
        assert(entries.subrange(0, i) =~= entries);
    } else {
        assert(entries.subrange(0, i + 1).drop_last() =~= entries.subrange(0, i));
        lemma_quantized_sum_none_extends(entries, q, i + 1);
    }
}

/// Whether the running sum of the quantized values and its difference from
/// the total stay representable, so the leftover can be computed at all.
pub open spec fn leftover_computable(total: Dec, s: Seq<Entry>, q: u32) -> bool {
    &&& spec_quantized_sum(s, q) is Some
    &&& crate::decimal::spec_add_exact(
        total,
        Dec {
            mantissa: (-spec_quantized_sum(s, q)->Some_0.mantissa) as i128,
            scale: spec_quantized_sum(s, q)->Some_0.scale,
        },
    ) is Some
}

/// Given a quantized total and a quantized value map, how many leftover
/// quantum units remain: the total minus the sum of the quantized values.
/// The call succeeds exactly when the running sum and the final difference
/// stay representable.
pub fn to_distribute(total: &Dec, money_map: &LineValueMap, quantization: u32) -> (r: Result<
    Dec,
    TabulationError,
>)
    requires
        total.wf(),
        total.scale <= quantization <= MAX_SCALE,
        money_map.inv(),
        map_quantized(money_map@, quantization),
    ensures
        (r is Ok) == leftover_computable(*total, money_map@, quantization),
        r is Ok ==> r->Ok_0.wf() && r->Ok_0.scale <= quantization && r->Ok_0.units()
            == total.units() - sum_units(money_map@),
{
    let mut acc = quantized_zero(quantization);
    let mut i: usize = 0;
    proof {
        assert(money_map@.subrange(0, 0) =~= Seq::<Entry>::empty());
    }
    while i < money_map.len()
        invariant
            money_map.inv(),
            map_quantized(money_map@, quantization),
            quantization <= MAX_SCALE,
            i <= money_map@.len(),
            acc.wf(),
            acc.scale <= quantization,
            acc.units() == sum_units(money_map@.subrange(0, i as int)),
            Some(acc) == spec_quantized_sum(money_map@.subrange(0, i as int), quantization),
        decreases money_map@.len() - i,
    {
        proof {
            assert(money_map@.subrange(0, i + 1).drop_last() =~= money_map@.subrange(0, i as int));
            assert(money_map@.subrange(0, i + 1).last() == money_map@[i as int]);
        }
        let e = money_map.at(i);
        let qv = quantize(&e.value, quantization);
        acc = match acc.add_exact(&qv) {
            Some(v) => v,
            None => {
                proof {
                    lemma_quantized_sum_none_extends(money_map@, quantization, i + 1);
                }
                return Err(TabulationError::from_text(
                    "Decimal overflow while tabulating line items.",
                ));
            },
        };
        i = i + 1;
    }
    proof {
        assert(money_map@.subrange(0, money_map@.len() as int) =~= money_map@);
    }
    match total.sub_exact(&acc) {
        Some(v) => Ok(v),
        None => Err(TabulationError::from_text("Decimal overflow while tabulating line items.")),
    }
}

/// Move the leftover onto the lines, one quantum at a time. Only lines
/// whose value shares the leftover's sign receive anything; they are served
/// in a priority-biased order (highest priority first for a positive
/// leftover, lowest first for a negative one, larger magnitudes and then
/// higher ids breaking ties), cycling back to the head of the queue until
/// the leftover is exhausted. The sum of the values grows by exactly the
/// leftover; every touched value moves toward the leftover's sign by whole
/// quanta. Fails with the missing-base-line message when a leftover exists
/// and no line is eligible.
pub fn distribute_difference(
    difference: Dec,
    decimal_map: LineValueMap,
    quantization: u32,
) -> (r: Result<LineValueMap, TabulationError>)
    requires
        difference.wf(),
        difference.scale <= quantization <= MAX_SCALE,
        decimal_map.inv(),
        map_quantized(decimal_map@, quantization),
    ensures
        r is Ok ==> ({
            let out = r->Ok_0;
            &&& out.inv()
            &&& map_quantized(out@, quantization)
            &&& out@.len() == decimal_map@.len()
            &&& forall|i: int|
                0 <= i < out@.len() ==> (#[trigger] out@[i]).id == decimal_map@[i].id
                    && out@[i].priority == decimal_map@[i].priority
            &&& sum_units(out@) == sum_units(decimal_map@) + difference.units()
            &&& forall|i: int|
                0 <= i < out@.len() ==> (#[trigger] out@[i]).value == decimal_map@[i].value
                    || eligible(decimal_map@[i], difference.units() > 0)
            &&& forall|i: int|
                0 <= i < out@.len() ==> (out@[i].value.units() - decimal_map@[i].value.units()) % (
                #[trigger] pow10((MAX_SCALE - quantization) as nat)) == 0
            &&& forall|i: int|
                0 <= i < out@.len() ==> if difference.units() >= 0 {
                    (#[trigger] out@[i]).value.units() >= decimal_map@[i].value.units()
                } else {
                    (#[trigger] out@[i]).value.units() <= decimal_map@[i].value.units()
                }
        }),
        difference.units() == 0 ==> r is Ok && r->Ok_0@ == decimal_map@,
        (difference.units() != 0 && none_eligible(decimal_map@, difference.units() > 0)) ==> r
            is Err && r->Err_0->ErrorString_0@ == no_line_msg(),
        // Success is owed whenever some line can absorb the leftover and the
        // values stay comfortably inside the representable range.
        (!none_eligible(decimal_map@, difference.units() > 0) && repair_in_range(
            decimal_map@,
            difference.units(),
            quantization,
        )) ==> r is Ok,
        // Exactly which line receives each quantum: the eligible entries,
        // sorted into serving order, are dealt the leftover round-robin from
        // the front; everything else is untouched.
        (r is Ok && difference.units() != 0) ==> exists|queue: Seq<usize>|
            #![trigger queue.len()]
            ({
                let qu = pow10((MAX_SCALE - quantization) as nat);
                let positive = difference.units() > 0;
                let steps = if positive {
                    difference.units() / qu
                } else {
                    (-difference.units()) / qu
                };
                let stepu = if positive {
                    qu
                } else {
                    -qu
                };
                &&& queue.len() >= 1
                &&& forall|k: int|
                    0 <= k < queue.len() ==> (#[trigger] queue[k]) < decimal_map@.len()
                        && eligible(decimal_map@[queue[k] as int], positive)
                &&& forall|i: int|
                    0 <= i < decimal_map@.len() && eligible(#[trigger] decimal_map@[i], positive)
                        ==> exists|k: int| 0 <= k < queue.len() && (#[trigger] queue[k]) == i
                &&& forall|k1: int, k2: int|
                    0 <= k1 < k2 < queue.len() ==> #[trigger] queue[k1] != #[trigger] queue[k2]
                &&& forall|k1: int, k2: int|
                    0 <= k1 < k2 < queue.len() ==> serves_no_later(
                        decimal_map@[#[trigger] queue[k1] as int],
                        decimal_map@[#[trigger] queue[k2] as int],
                        positive,
                    )
                &&& forall|k: int|
                    0 <= k < queue.len() ==> (#[trigger] r->Ok_0@[queue[k] as int]).value.units()
                        == decimal_map@[queue[k] as int].value.units() + crate::divide::dealt(
                        k,
                        steps,
                        queue.len() as int,
                    ) * stepu
                &&& forall|i: int|
                    0 <= i < decimal_map@.len() && (forall|k: int|
                        0 <= k < queue.len() ==> (#[trigger] queue[k]) != i) ==> (
                    #[trigger] r->Ok_0@[i]) == decimal_map@[i]
            }),
{
    let mut map = decimal_map;
    let ghost orig = map@;
    proof {
        assert(orig == decimal_map@);
        crate::decimal::lemma_pow10_pos((MAX_SCALE - quantization) as nat);
    }
    let positive = difference.gt(&quantized_zero(quantization));
    if difference.is_zero() {
        proof {
            crate::decimal::lemma_pow10_pos((MAX_SCALE - quantization) as nat);
        }
        return Ok(map);
    }
    // Queue of eligible positions, later sorted into allocation order.
    let mut queue: Vec<usize> = Vec::new();
    let mut i: usize = 0;
    while i < map.len()
        invariant
            map.inv(),
            map@ == orig,
            quantization <= MAX_SCALE,
            i <= map@.len(),
            positive == (difference.units() > 0),
            forall|k: int|
                0 <= k < queue@.len() ==> (#[trigger] queue@[k]) < i && eligible(
                    map@[queue@[k] as int],
                    positive,
                ),
            forall|k1: int, k2: int|
                0 <= k1 < k2 < queue@.len() ==> #[trigger] queue@[k1] < #[trigger] queue@[k2],
            forall|j: int|
                0 <= j < i && eligible(#[trigger] map@[j], positive) ==> exists|k: int|
                    0 <= k < queue@.len() && (#[trigger] queue@[k]) == j,
            queue@.len() == 0 ==> forall|j: int|
                0 <= j < i ==> !eligible(#[trigger] map@[j], positive),
        decreases map@.len() - i,
    {
        let ghost pre_queue = queue@;
        let e = map.at(i);
        let zero = quantized_zero(quantization);
        let keep = if positive {
            e.value.gt(&zero)
        } else {
            e.value.lt(&zero)
        };
        if keep {
            queue.push(i);
        }
        proof {
            assert forall|j: int|
                0 <= j < i + 1 && eligible(#[trigger] map@[j], positive) implies exists|k: int|
                0 <= k < queue@.len() && (#[trigger] queue@[k]) == j by {
                if j < i {
                    let k = choose|k: int|
                        0 <= k < pre_queue.len() && (#[trigger] pre_queue[k]) == j;
                    assert(queue@[k] == j);
                } else {
                    assert(queue@[queue@.len() - 1] == j);
                }
            }
        }
        i = i + 1;
    }
    if queue.len() == 0 {
        proof {
            reveal_strlit(
                "No line items to distribute difference to. You may be missing a base price line item, which should be included even if the base price would be zero.",
            );
        }
        return Err(TabulationError::from_text(
            "No line items to distribute difference to. You may be missing a base price line item, which should be included even if the base price would be zero.",
        ));
    }
    // Sort the queue into allocation order: priority first (direction set by
    // the leftover's sign), then larger magnitude, then higher id.
    let qlen = queue.len();
    let mut s: usize = 1;
    while s < qlen
        invariant
            map.inv(),
            map@ == orig,
            queue@.len() == qlen,
            qlen >= 1,
            s <= qlen,
            positive == (difference.units() > 0),
            forall|k: int|
                0 <= k < queue@.len() ==> (#[trigger] queue@[k]) < map@.len() && eligible(
                    map@[queue@[k] as int],
                    positive,
                ),
            forall|k1: int, k2: int|
                0 <= k1 < k2 < queue@.len() ==> #[trigger] queue@[k1] != #[trigger] queue@[k2],
            forall|j: int|
                0 <= j < map@.len() && eligible(#[trigger] map@[j], positive) ==> exists|k: int|
                    0 <= k < queue@.len() && (#[trigger] queue@[k]) == j,
            forall|k1: int, k2: int|
                0 <= k1 < k2 < s as int ==> serves_no_later(
                    map@[#[trigger] queue@[k1] as int],
                    map@[#[trigger] queue@[k2] as int],
                    positive,
                ),
        decreases qlen - s,
    {
        let mut t: usize = s;
        while t > 0
            invariant
                map.inv(),
                map@ == orig,
                queue@.len() == qlen,
                t <= s < qlen,
                positive == (difference.units() > 0),
                forall|k: int|
                    0 <= k < queue@.len() ==> (#[trigger] queue@[k]) < map@.len() && eligible(
                        map@[queue@[k] as int],
                        positive,
                    ),
                forall|k1: int, k2: int|
                    0 <= k1 < k2 < queue@.len() ==> #[trigger] queue@[k1] != #[trigger] queue@[k2],
                forall|j: int|
                    0 <= j < map@.len() && eligible(#[trigger] map@[j], positive) ==> exists|
                    k: int,
                |
                    0 <= k < queue@.len() && (#[trigger] queue@[k]) == j,
                // Sorted on the prefix, except for pairs ending at the
                // element still being moved down.
                forall|k1: int, k2: int|
                    0 <= k1 < k2 <= s as int && k2 != t as int ==> serves_no_later(
                        map@[#[trigger] queue@[k1] as int],
                        map@[#[trigger] queue@[k2] as int],
                        positive,
                    ),
            ensures
                forall|k1: int, k2: int|
                    0 <= k1 < k2 <= s as int ==> serves_no_later(
                        map@[#[trigger] queue@[k1] as int],
                        map@[#[trigger] queue@[k2] as int],
                        positive,
                    ),
                map@ == orig,
                queue@.len() == qlen,
                forall|k: int|
                    0 <= k < queue@.len() ==> (#[trigger] queue@[k]) < map@.len() && eligible(
                        map@[queue@[k] as int],
                        positive,
                    ),
                forall|k1: int, k2: int|
                    0 <= k1 < k2 < queue@.len() ==> #[trigger] queue@[k1] != #[trigger] queue@[k2],
                forall|j: int|
                    0 <= j < map@.len() && eligible(#[trigger] map@[j], positive) ==> exists|
                    k: int,
                |
                    0 <= k < queue@.len() && (#[trigger] queue@[k]) == j,
            decreases t,
        {
            let a = map.at(queue[t - 1]);
            let b = map.at(queue[t]);
            let before = if a.priority != b.priority {
                if positive {
                    a.priority > b.priority
                } else {
                    a.priority < b.priority
                }
            } else {
                let mag_a = a.value.abs();
                let mag_b = b.value.abs();
                let c = mag_a.units_cmp(&mag_b);
                if c != 0 {
                    c == 1
                } else {
                    a.id > b.id
                }
            };
            proof {
                assert(before ==> serves_no_later(a, b, positive));
                assert(!before ==> serves_no_later(b, a, positive));
            }
            if before {
                proof {
                    // The boundary is ordered, so the whole prefix is.
                    assert forall|k1: int, k2: int|
                        0 <= k1 < k2 <= s as int implies serves_no_later(
                        map@[#[trigger] queue@[k1] as int],
                        map@[#[trigger] queue@[k2] as int],
                        positive,
                    ) by {
                        if k2 == t as int && k1 < t as int - 1 {
                            lemma_serves_trans(
                                map@[queue@[k1] as int],
                                map@[queue@[t - 1] as int],
                                map@[queue@[t as int] as int],
                                positive,
                            );
                        }
                    }
                }
                break ;
            }
            let x = queue[t - 1];
            let y = queue[t];
            let ghost pre_queue = queue@;
            queue.set(t - 1, y);
            queue.set(t, x);
            proof {
                assert forall|k1: int, k2: int|
                    0 <= k1 < k2 <= s as int && k2 != t as int - 1 implies serves_no_later(
                    map@[#[trigger] queue@[k1] as int],
                    map@[#[trigger] queue@[k2] as int],
                    positive,
                ) by {
                    if k1 == t as int - 1 {
                        if k2 == t as int {
                            assert(queue@[k1] == pre_queue[t as int] && queue@[k2]
                                == pre_queue[t as int - 1]);
                        } else {
                            assert(queue@[k1] == pre_queue[t as int] && queue@[k2]
                                == pre_queue[k2]);
                        }
                    } else if k1 == t as int {
                        assert(queue@[k1] == pre_queue[t as int - 1] && queue@[k2]
                            == pre_queue[k2]);
                    } else if k2 == t as int {
                        assert(queue@[k1] == pre_queue[k1] && queue@[k2] == pre_queue[t as int
                            - 1]);
                    } else {
                        assert(queue@[k1] == pre_queue[k1] && queue@[k2] == pre_queue[k2]);
                    }
                }
                assert forall|k1: int, k2: int|
                    0 <= k1 < k2 < queue@.len() implies #[trigger] queue@[k1] != #[trigger] queue@[k2] by {
                    if k1 == t as int - 1 && k2 == t as int {
                        assert(pre_queue[t as int - 1] != pre_queue[t as int]);
                    }
                }
                assert forall|j: int|
                    0 <= j < map@.len() && eligible(#[trigger] map@[j], positive) implies exists|
                    k: int,
                |
                    0 <= k < queue@.len() && (#[trigger] queue@[k]) == j by {
                    let k = choose|k: int|
                        0 <= k < pre_queue.len() && (#[trigger] pre_queue[k]) == j;
                    if k == t as int - 1 {
                        assert(queue@[t as int] == j);
                    } else if k == t as int {
                        assert(queue@[t as int - 1] == j);
                    } else {
                        assert(queue@[k] == j);
                    }
                }
            }
            t = t - 1;
        }
        s = s + 1;
    }
    // Hand out one quantum at a time, cycling through the queue.
    let step = quantum(quantization);
    let amount = if positive {
        step
    } else {
        step.neg()
    };
    let mut remaining = difference;
    let mut qpos: usize = 0;
    let ghost qlen_i = qlen as int;
    let mut done: Ghost<int> = Ghost(0int);
    proof {
        lemma_units_multiple(difference, quantization);
        crate::decimal::lemma_pow10_pos((MAX_SCALE - quantization) as nat);
        vstd::arithmetic::div_mod::lemma_small_mod(0nat, pow10((MAX_SCALE - quantization) as nat) as nat);
        assert forall|i2: int| 0 <= i2 < map@.len() implies (map@[i2].value.units()
            - orig[i2].value.units()) % (#[trigger] pow10((MAX_SCALE - quantization) as nat))
            == 0 by {
            assert(map@[i2] == orig[i2]);
        }
        vstd::arithmetic::div_mod::lemma_mod_multiples_basic(0, qlen_i);
        assert(0int / qlen_i == 0 && 0int % qlen_i == 0) by {
            vstd::arithmetic::div_mod::lemma_fundamental_div_mod_converse(0, qlen_i, 0, 0);
        }
        assert forall|k: int| 0 <= k < qlen_i implies crate::divide::dealt(k, 0, qlen_i) == 0 by {}
        assert forall|k: int| 0 <= k < queue@.len() implies (
        #[trigger] map@[queue@[k] as int]).value.units() == orig[queue@[k] as int].value.units()
            + crate::divide::dealt(k, 0, qlen_i) * amount.units() by {
            assert(crate::divide::dealt(k, 0, qlen_i) == 0);
            assert(0 * amount.units() == 0) by (nonlinear_arith);
            assert(map@[queue@[k] as int] == orig[queue@[k] as int]);
        }
    }
    while !remaining.is_zero()
        invariant
            map.inv(),
            orig == decimal_map@,
            map_quantized(map@, quantization),
            quantization <= MAX_SCALE,
            positive == (difference.units() > 0),
            difference.units() != 0,
            amount.wf(),
            amount.scale == quantization,
            amount.units() == if positive {
                pow10((MAX_SCALE - quantization) as nat)
            } else {
                -pow10((MAX_SCALE - quantization) as nat)
            },
            remaining.wf(),
            remaining.scale <= quantization,
            remaining.units() % pow10((MAX_SCALE - quantization) as nat) == 0,
            if positive {
                0 <= remaining.units() <= difference.units()
            } else {
                difference.units() <= remaining.units() <= 0
            },
            queue@.len() == qlen_i,
            qlen_i >= 1,
            qpos < queue@.len(),
            forall|k: int|
                0 <= k < queue@.len() ==> (#[trigger] queue@[k]) < map@.len() && eligible(
                    orig[queue@[k] as int],
                    positive,
                ),
            forall|k1: int, k2: int|
                0 <= k1 < k2 < queue@.len() ==> #[trigger] queue@[k1] != #[trigger] queue@[k2],
            forall|j: int|
                0 <= j < orig.len() && eligible(#[trigger] orig[j], positive) ==> exists|k: int|
                    0 <= k < queue@.len() && (#[trigger] queue@[k]) == j,
            forall|k1: int, k2: int|
                0 <= k1 < k2 < queue@.len() ==> serves_no_later(
                    orig[#[trigger] queue@[k1] as int],
                    orig[#[trigger] queue@[k2] as int],
                    positive,
                ),
            done@ >= 0,
            qpos as int == done@ % qlen_i,
            done@ * pow10((MAX_SCALE - quantization) as nat) == if positive {
                difference.units() - remaining.units()
            } else {
                remaining.units() - difference.units()
            },
            forall|k: int|
                0 <= k < queue@.len() ==> (#[trigger] map@[queue@[k] as int]).value.units()
                    == orig[queue@[k] as int].value.units() + crate::divide::dealt(
                    k,
                    done@,
                    qlen_i,
                ) * amount.units(),
            forall|i2: int|
                0 <= i2 < map@.len() && (forall|k: int|
                    0 <= k < queue@.len() ==> (#[trigger] queue@[k]) != i2) ==> (
                #[trigger] map@[i2]) == orig[i2],
            map@.len() == orig.len(),
            forall|i2: int|
                0 <= i2 < map@.len() ==> (#[trigger] map@[i2]).id == orig[i2].id
                    && map@[i2].priority == orig[i2].priority,
            sum_units(map@) == sum_units(orig) + difference.units() - remaining.units(),
            forall|i2: int|
                0 <= i2 < map@.len() ==> (#[trigger] map@[i2]).value == orig[i2].value || eligible(
                    orig[i2],
                    positive,
                ),
            forall|i2: int|
                0 <= i2 < map@.len() ==> (map@[i2].value.units() - orig[i2].value.units()) % (
                #[trigger] pow10((MAX_SCALE - quantization) as nat)) == 0,
            forall|i2: int|
                0 <= i2 < map@.len() ==> if positive {
                    orig[i2].value.units() <= (#[trigger] map@[i2]).value.units()
                        <= orig[i2].value.units() + (difference.units() - remaining.units())
                } else {
                    orig[i2].value.units() + (difference.units() - remaining.units()) <= (
                    #[trigger] map@[i2]).value.units() <= orig[i2].value.units()
                },
        decreases
                if positive {
                    remaining.units()
                } else {
                    -remaining.units()
                },
    {
        let target = queue[qpos];
        let cur = map.at(target).value;
        let nv = match cur.add_exact(&amount) {
            Some(v) => v,
            None => {
                proof {
                    assert(eligible(orig[queue@[qpos as int] as int], positive));
                    lemma_update_fits(
                        cur,
                        amount,
                        orig[target as int].value,
                        difference,
                        remaining,
                        quantization,
                        positive,
                    );
                }
                return Err(TabulationError::from_text(
                    "Decimal overflow while tabulating line items.",
                ));
            },
        };
        let ghost pre_map = map@;
        proof {
            lemma_sum_update(
                map@,
                target as int,
                Entry { id: map@[target as int].id, priority: map@[target as int].priority, value: nv },
            );
        }
        map.set_value_at(target, nv);
        let ghost rem_pre = remaining;
        proof {
            let m = pow10((MAX_SCALE - quantization) as nat);
            crate::decimal::lemma_pow10_pos((MAX_SCALE - quantization) as nat);
            vstd::arithmetic::div_mod::lemma_mod_multiples_basic(1, m);
            vstd::arithmetic::div_mod::lemma_mod_multiples_basic(-1, m);
            assert(1 * m == m && (-1) * m == -m) by (nonlinear_arith);
            assert(amount.units() % m == 0);
            assert forall|i2: int| 0 <= i2 < map@.len() implies (map@[i2].value.units()
                - orig[i2].value.units()) % (#[trigger] pow10((MAX_SCALE - quantization) as nat))
                == 0 by {
                if i2 == target as int {
                    crate::decimal::lemma_multiple_sub(
                        pre_map[i2].value.units() - orig[i2].value.units(),
                        -amount.units(),
                        m,
                    );
                } else {
                    assert(map@[i2] == pre_map[i2]);
                }
            }
        }
        proof {
            crate::decimal::lemma_pow10_pos((MAX_SCALE - quantization) as nat);
            vstd::arithmetic::div_mod::lemma_mod_multiples_basic(
                1,
                pow10((MAX_SCALE - quantization) as nat),
            );
            vstd::arithmetic::div_mod::lemma_mod_multiples_basic(
                -1,
                pow10((MAX_SCALE - quantization) as nat),
            );
            assert(1 * pow10((MAX_SCALE - quantization) as nat) == pow10(
                (MAX_SCALE - quantization) as nat,
            ) && (-1) * pow10((MAX_SCALE - quantization) as nat) == -pow10(
                (MAX_SCALE - quantization) as nat,
            )) by (nonlinear_arith);
            crate::decimal::lemma_multiple_sub(
                remaining.units(),
                amount.units(),
                pow10((MAX_SCALE - quantization) as nat),
            );
            if positive {
                lemma_multiple_ge(
                    remaining.units(),
                    pow10((MAX_SCALE - quantization) as nat),
                );
            } else {
                crate::decimal::lemma_neg_multiple(
                    remaining.units(),
                    pow10((MAX_SCALE - quantization) as nat),
                );
                lemma_multiple_ge(
                    -remaining.units(),
                    pow10((MAX_SCALE - quantization) as nat),
                );
            }
        }
        remaining = match remaining.sub_exact(&amount) {
            Some(v) => v,
            None => {
                proof {
                    assert(eligible(orig[queue@[qpos as int] as int], positive));
                    lemma_remaining_fits(rem_pre, amount, difference, quantization, positive);
                }
                return Err(TabulationError::from_text(
                    "Decimal overflow while tabulating line items.",
                ));
            },
        };
        proof {
            // One more quantum was dealt: the position advances round-robin
            // and the per-position counts follow the dealing formula.
            let m = pow10((MAX_SCALE - quantization) as nat);
            let n = done@;
            vstd::arithmetic::div_mod::lemma_fundamental_div_mod(n, qlen_i);
            vstd::arithmetic::div_mod::lemma_mod_bound(n, qlen_i);
            if n % qlen_i == qlen_i - 1 {
                assert(n + 1 == qlen_i * (n / qlen_i + 1) + 0) by (nonlinear_arith)
                    requires
                        n == qlen_i * (n / qlen_i) + n % qlen_i && n % qlen_i == qlen_i - 1,
                ;
                vstd::arithmetic::div_mod::lemma_fundamental_div_mod_converse(
                    n + 1,
                    qlen_i,
                    n / qlen_i + 1,
                    0,
                );
            } else {
                vstd::arithmetic::div_mod::lemma_fundamental_div_mod_converse(
                    n + 1,
                    qlen_i,
                    n / qlen_i,
                    n % qlen_i + 1,
                );
            }
            assert((n + 1) * m == n * m + m) by (nonlinear_arith);
            assert forall|k: int| 0 <= k < queue@.len() implies (
            #[trigger] map@[queue@[k] as int]).value.units() == orig[queue@[k] as int].value.units()
                + crate::divide::dealt(k, n + 1, qlen_i) * amount.units() by {
                if k == qpos as int {
                    assert(map@[target as int].value == nv);
                    assert(crate::divide::dealt(k, n + 1, qlen_i) == crate::divide::dealt(
                        k,
                        n,
                        qlen_i,
                    ) + 1);
                    assert((crate::divide::dealt(k, n, qlen_i) + 1) * amount.units()
                        == crate::divide::dealt(k, n, qlen_i) * amount.units() + amount.units())
                        by (nonlinear_arith);
                } else {
                    assert(queue@[k] != queue@[qpos as int]);
                    assert(map@[queue@[k] as int] == pre_map[queue@[k] as int]);
                    assert(crate::divide::dealt(k, n + 1, qlen_i) == crate::divide::dealt(
                        k,
                        n,
                        qlen_i,
                    ));
                }
            }
            assert forall|i2: int|
                0 <= i2 < map@.len() && (forall|k: int|
                    0 <= k < queue@.len() ==> (#[trigger] queue@[k]) != i2) implies (
            #[trigger] map@[i2]) == orig[i2] by {
                assert(queue@[qpos as int] != i2);
                assert(map@[i2] == pre_map[i2]);
            }
            done@ = n + 1;
        }
        if qpos >= queue.len() - 1 {
            qpos = 0;
        } else {
            qpos = qpos + 1;
        }
    }
    proof {
        // The leftover is spent: exactly its quantum count was dealt, so
        // the queue in serving order carries the whole allocation.
        let m = pow10((MAX_SCALE - quantization) as nat);
        let mag = if positive {
            difference.units()
        } else {
            -difference.units()
        };
        vstd::arithmetic::div_mod::lemma_fundamental_div_mod_converse(mag, m, done@, 0);
        assert(done@ == mag / m);
        assert(queue@.len() as int == qlen_i);
    }
    proof {
        assert(eligible(orig[queue@[0] as int], positive));
    }
    Ok(map)
}

/// If a touched value stays within one leftover of the representable
/// range, adding one more quantum to it cannot overflow: the exact sum is
/// representable at the asked scale.
proof fn lemma_update_fits(
    cur: Dec,
    amount: Dec,
    orig_value: Dec,
    difference: Dec,
    remaining: Dec,
    quantization: u32,
    positive: bool,
)
    requires
        cur.wf(),
        amount.wf(),
        quantization <= MAX_SCALE,
        cur.scale <= quantization,
        amount.scale == quantization,
        amount.units() == if positive {
            pow10((MAX_SCALE - quantization) as nat)
        } else {
            -pow10((MAX_SCALE - quantization) as nat)
        },
        positive == (difference.units() > 0),
        difference.units() != 0,
        if positive {
            0 < remaining.units() <= difference.units()
        } else {
            difference.units() <= remaining.units() < 0
        },
        remaining.units() % pow10((MAX_SCALE - quantization) as nat) == 0,
        if positive {
            orig_value.units() <= cur.units() <= orig_value.units() + (difference.units()
                - remaining.units())
        } else {
            orig_value.units() + (difference.units() - remaining.units()) <= cur.units()
                <= orig_value.units()
        },
        eligible(
            Entry { id: 0, priority: 0, value: orig_value },
            positive,
        ),
        crate::decimal::spec_add_exact(cur, amount) is None,
    ensures
        !(-(MAX_MANTISSA * pow10((MAX_SCALE - quantization) as nat)) <= orig_value.units()
            + difference.units() <= MAX_MANTISSA * pow10((MAX_SCALE - quantization) as nat)),
{
    let qu = pow10((MAX_SCALE - quantization) as nat);
    crate::decimal::lemma_pow10_pos((MAX_SCALE - quantization) as nat);
    if -(MAX_MANTISSA * qu) <= orig_value.units() + difference.units() <= MAX_MANTISSA * qu {
        crate::decimal::lemma_align_units(cur, quantization);
        let ma = cur.mantissa * pow10((quantization - cur.scale) as nat);
        assert(cur.units() == ma * qu);
        let sum_units = cur.units() + amount.units();
        // The updated value stays within the hypothesis bound: at least one
        // quantum of the leftover is still unconsumed.
        if positive {
            lemma_multiple_ge(remaining.units(), qu);
            assert(0 < orig_value.units());
            assert(sum_units <= orig_value.units() + difference.units());
            assert(sum_units > 0);
        } else {
            crate::decimal::lemma_neg_multiple(remaining.units(), qu);
            lemma_multiple_ge(-remaining.units(), qu);
            assert(orig_value.units() < 0);
            assert(orig_value.units() + difference.units() <= sum_units);
            assert(sum_units < 0);
        }
        assert(-(MAX_MANTISSA * qu) <= sum_units <= MAX_MANTISSA * qu);
        // So the aligned mantissas and their sum fit in 96 bits.
        assert(-(MAX_MANTISSA * qu) <= ma * qu <= MAX_MANTISSA * qu);
        assert(-MAX_MANTISSA <= ma <= MAX_MANTISSA) by {
            crate::decimal::lemma_mul_le_cancel(ma, MAX_MANTISSA as int, qu);
            crate::decimal::lemma_mul_le_cancel(-MAX_MANTISSA as int, ma, qu);
            assert((-MAX_MANTISSA) * qu == -(MAX_MANTISSA * qu)) by (nonlinear_arith);
        }
        let mb = amount.mantissa * pow10((quantization - amount.scale) as nat);
        assert(pow10(0) == 1);
        assert(mb == amount.mantissa) by (nonlinear_arith)
            requires
                mb == amount.mantissa * 1int,
        ;
        assert(amount.units() == amount.mantissa * qu);
        assert(sum_units == (ma + mb) * qu) by (nonlinear_arith)
            requires
                cur.units() == ma * qu && amount.units() == mb * qu && sum_units == cur.units()
                    + amount.units(),
        ;
        assert(-MAX_MANTISSA <= ma + mb <= MAX_MANTISSA) by {
            crate::decimal::lemma_mul_le_cancel(ma + mb, MAX_MANTISSA as int, qu);
            crate::decimal::lemma_mul_le_cancel(-MAX_MANTISSA as int, ma + mb, qu);
            assert((-MAX_MANTISSA) * qu == -(MAX_MANTISSA * qu)) by (nonlinear_arith);
        }
        assert(crate::decimal::spec_add_exact(cur, amount) is Some);
        assert(false);
    }
}

/// Subtracting one quantum from a leftover bounded by the representable
/// range cannot overflow.
proof fn lemma_remaining_fits(
    remaining: Dec,
    amount: Dec,
    difference: Dec,
    quantization: u32,
    positive: bool,
)
    requires
        remaining.wf(),
        amount.wf(),
        quantization <= MAX_SCALE,
        remaining.scale <= quantization,
        amount.scale == quantization,
        amount.units() == if positive {
            pow10((MAX_SCALE - quantization) as nat)
        } else {
            -pow10((MAX_SCALE - quantization) as nat)
        },
        positive == (difference.units() > 0),
        if positive {
            0 < remaining.units() <= difference.units()
        } else {
            difference.units() <= remaining.units() < 0
        },
        remaining.units() % pow10((MAX_SCALE - quantization) as nat) == 0,
        crate::decimal::spec_add_exact(
            remaining,
            Dec { mantissa: (-amount.mantissa) as i128, scale: amount.scale },
        ) is None,
    ensures
        !(-(MAX_MANTISSA * pow10((MAX_SCALE - quantization) as nat)) <= difference.units()
            <= MAX_MANTISSA * pow10((MAX_SCALE - quantization) as nat)),
{
    let qu = pow10((MAX_SCALE - quantization) as nat);
    crate::decimal::lemma_pow10_pos((MAX_SCALE - quantization) as nat);
    if -(MAX_MANTISSA * qu) <= difference.units() <= MAX_MANTISSA * qu {
        crate::decimal::lemma_align_units(remaining, quantization);
        let ma = remaining.mantissa * pow10((quantization - remaining.scale) as nat);
        assert(remaining.units() == ma * qu);
        assert(-MAX_MANTISSA <= ma <= MAX_MANTISSA) by {
            crate::decimal::lemma_mul_le_cancel(ma, MAX_MANTISSA as int, qu);
            crate::decimal::lemma_mul_le_cancel(-MAX_MANTISSA as int, ma, qu);
            assert((-MAX_MANTISSA) * qu == -(MAX_MANTISSA * qu)) by (nonlinear_arith);
        }
        let neg = Dec { mantissa: (-amount.mantissa) as i128, scale: amount.scale };
        let mb = neg.mantissa * pow10((quantization - neg.scale) as nat);
        assert(pow10(0) == 1);
        assert(mb == neg.mantissa) by (nonlinear_arith)
            requires
                mb == neg.mantissa * 1int,
        ;
        let diff_units = remaining.units() - amount.units();
        assert(diff_units == (ma + mb) * qu) by (nonlinear_arith)
            requires
                remaining.units() == ma * qu && amount.units() == (-mb) * qu && diff_units
                    == remaining.units() - amount.units(),
        ;
        // One quantum off a nonzero leftover shrinks its magnitude.
        if positive {
            lemma_multiple_ge(remaining.units(), qu);
            assert(0 <= diff_units < remaining.units());
        } else {
            crate::decimal::lemma_neg_multiple(remaining.units(), qu);
            lemma_multiple_ge(-remaining.units(), qu);
            assert(remaining.units() < diff_units <= 0);
        }
        assert(-(MAX_MANTISSA * qu) <= diff_units <= MAX_MANTISSA * qu);
        assert(-MAX_MANTISSA <= ma + mb <= MAX_MANTISSA) by {
            crate::decimal::lemma_mul_le_cancel(ma + mb, MAX_MANTISSA as int, qu);
            crate::decimal::lemma_mul_le_cancel(-MAX_MANTISSA as int, ma + mb, qu);
            assert((-MAX_MANTISSA) * qu == -(MAX_MANTISSA * qu)) by (nonlinear_arith);
        }
        assert(crate::decimal::spec_add_exact(remaining, neg) is Some);
        assert(false);
    }
}

} // verus!
