//! The equal-share divider: splitting a quantized amount into near-equal
//! quantized shares, the remainder handed out front to back.

use vstd::prelude::*;

use crate::data::TabulationError;
use crate::decimal::{
    dec_div, dec_mul, dec_sub, lemma_multiple_ge, lemma_multiple_sub, lemma_neg_multiple,
    lemma_pow10_pos, lemma_units_multiple, pow10, quantize, quantum, spec_div, spec_mul,
    spec_quantize, spec_sub, Dec, MAX_MANTISSA, MAX_SCALE,
};

verus! {

/// The sum of a list of decimal values, in `10^-28` units.
pub open spec fn sum_dec_units(s: Seq<Dec>) -> int
    decreases s.len(),
{
    if s.len() == 0 {
        0
    } else {
        sum_dec_units(s.drop_last()) + s.last().units()
    }
}

/// The base share and leftover the divider works from: the quotient
/// truncated to the asked scale, and the difference between the amount and
/// the quantized product of the share and the divisor. `None` where the
/// outside decimal arithmetic overflows.
pub open spec fn spec_divide_model(amount: Dec, divisor: u16, q: u32) -> Option<(Dec, Dec)> {
    let ddec = Dec { mantissa: divisor as i128, scale: 0 };
    match spec_div(amount, ddec) {
        None => None,
        Some(raw) => {
            let share = spec_quantize(raw, q);
            match spec_mul(share, ddec) {
                None => None,
                Some(prod) => {
                    let back = spec_quantize(prod, q);
                    match spec_sub(amount, back) {
                        None => None,
                        Some(diff) => Some((share, diff)),
                    }
                },
            }
        },
    }
}

/// How many quanta one position receives when `n` quanta are dealt round
/// and round over `d` positions starting at the front: a full round each,
/// and one more for the first `n % d` positions.
pub open spec fn dealt(i: int, n: int, d: int) -> int {
    n / d + if i < n % d {
        1int
    } else {
        0int
    }
}

/// Round-robin dealing never hands one position more quanta than were
/// dealt in all.
proof fn lemma_dealt_le(i: int, n: int, d: int)
    requires
        d >= 1,
        n >= 0,
        i >= 0,
    ensures
        0 <= dealt(i, n, d) <= n,
{
    vstd::arithmetic::div_mod::lemma_fundamental_div_mod(n, d);
    vstd::arithmetic::div_mod::lemma_mod_bound(n, d);
    vstd::arithmetic::div_mod::lemma_div_pos_is_pos(n, d);
    vstd::arithmetic::div_mod::lemma_div_nonincreasing(n, d);
    if i < n % d {
        assert(n % d >= 1);
        assert(n >= 1) by (nonlinear_arith)
            requires
                n == d * (n / d) + n % d && n % d >= 1 && n / d >= 0 && d >= 1,
        ;
        if d >= 2 {
            vstd::arithmetic::div_mod::lemma_div_decreases(n, d);
        }
    }
}

/// A value whose quantization changes nothing is a whole number of quanta.
proof fn lemma_quantized_value_multiple(d: Dec, q: u32)
    requires
        d.wf(),
        q <= MAX_SCALE,
        d.units() == spec_quantize(d, q).units(),
    ensures
        d.units() % pow10((MAX_SCALE - q) as nat) == 0,
{
    if d.scale <= q {
        lemma_units_multiple(d, q);
    } else {
        let r = spec_quantize(d, q);
        assert(r.scale == q);
        let p = pow10((d.scale - q) as nat);
        lemma_pow10_pos((d.scale - q) as nat);
        let mag = if d.mantissa >= 0 {
            d.mantissa as int
        } else {
            -d.mantissa as int
        };
        vstd::arithmetic::div_mod::lemma_div_nonincreasing(mag, p);
        vstd::arithmetic::div_mod::lemma_div_pos_is_pos(mag, p);
        assert(r.wf());
        lemma_units_multiple(r, q);
    }
}

/// Splits an amount into a number of equal amounts, or as close as possible
/// when quanta are left over: each share is the truncated quotient, and the
/// leftover quanta are dealt one each from the front of the list, cycling.
/// The amount must already be quantized and the divisor nonzero.
pub fn divide_amount(amount: Dec, divisor: u16, quantization: u32) -> (r: Result<
    Vec<Dec>,
    TabulationError,
>)
    requires
        amount.wf(),
        quantization <= MAX_SCALE,
    ensures
        amount.units() != spec_quantize(amount, quantization).units() ==> r is Err
            && r->Err_0->ErrorString_0@ == "Amount is improperly quantized. Cannot divide."@,
        (amount.units() == spec_quantize(amount, quantization).units() && divisor == 0) ==> r
            is Err && r->Err_0->ErrorString_0@ == "Cannot divide by zero."@,
        r is Ok ==> divisor > 0 && amount.units() == spec_quantize(amount, quantization).units()
            && spec_divide_model(amount, divisor, quantization) is Some,
        r is Ok ==> ({
            let m = spec_divide_model(amount, divisor, quantization)->Some_0;
            let share = m.0;
            let qu = pow10((MAX_SCALE - quantization) as nat);
            let steps = if m.1.units() >= 0 {
                m.1.units() / qu
            } else {
                (-m.1.units()) / qu
            };
            let step = if m.1.units() >= 0 {
                qu
            } else {
                -qu
            };
            &&& r->Ok_0@.len() == divisor
            &&& forall|i: int|
                0 <= i < divisor ==> (#[trigger] r->Ok_0@[i]).wf() && r->Ok_0@[i].units()
                    == share.units() + dealt(i, steps, divisor as int) * step
            &&& sum_dec_units(r->Ok_0@) == divisor * share.units() + m.1.units()
            &&& m.1.units() == amount.units() - divisor * share.units() ==> sum_dec_units(
                r->Ok_0@,
            ) == amount.units()
        }),
        // Success is owed whenever the validations pass, the decimal
        // arithmetic stays representable, the leftover is a whole number of
        // quanta, and the dealt shares stay inside the representable band.
        ({
            let m = spec_divide_model(amount, divisor, quantization);
            let qu = pow10((MAX_SCALE - quantization) as nat);
            &&& amount.units() == spec_quantize(amount, quantization).units()
            &&& divisor > 0
            &&& m is Some
            &&& m->Some_0.1.units() % qu == 0
            &&& -(MAX_MANTISSA * qu) <= m->Some_0.1.units() <= MAX_MANTISSA * qu
            &&& -(MAX_MANTISSA * qu) <= m->Some_0.0.units() <= MAX_MANTISSA * qu
            &&& -(MAX_MANTISSA * qu) <= m->Some_0.0.units() + m->Some_0.1.units() <= MAX_MANTISSA
                * qu
        }) ==> r is Ok,
{
    let quantized = quantize(&amount, quantization);
    if !amount.eq_units(&quantized) {
        proof {
            reveal_strlit("Amount is improperly quantized. Cannot divide.");
        }
        return Err(TabulationError::from_text("Amount is improperly quantized. Cannot divide."));
    }
    if divisor == 0 {
        proof {
            reveal_strlit("Cannot divide by zero.");
        }
        return Err(TabulationError::from_text("Cannot divide by zero."));
    }
    let factor = Dec::new(divisor as i128, 0);
    let raw = match dec_div(&amount, &factor) {
        Some(v) => v,
        None => {
            return Err(TabulationError::from_text(
                "Decimal overflow while dividing an amount.",
            ));
        },
    };
    let target_amount = quantize(&raw, quantization);
    let prod = match dec_mul(&target_amount, &factor) {
        Some(v) => v,
        None => {
            return Err(TabulationError::from_text(
                "Decimal overflow while dividing an amount.",
            ));
        },
    };
    let back = quantize(&prod, quantization);
    let difference = match dec_sub(&amount, &back) {
        Some(v) => v,
        None => {
            return Err(TabulationError::from_text(
                "Decimal overflow while dividing an amount.",
            ));
        },
    };
    proof {
        assert(spec_divide_model(amount, divisor, quantization) == Some(
            (target_amount, difference),
        ));
    }
    // The leftover must be a whole number of quanta for the walk below to
    // exhaust it; the arithmetic above guarantees it except at the extremes
    // of the representable range, where rounding may have crept in.
    let diff_quantized = quantize(&difference, quantization);
    if !difference.eq_units(&diff_quantized) {
        proof {
            lemma_pow10_pos((MAX_SCALE - quantization) as nat);
            if difference.units() % pow10((MAX_SCALE - quantization) as nat) == 0 {
                crate::decimal::lemma_multiple_quantize_identity(difference, quantization);
                assert(false);
            }
        }
        return Err(TabulationError::from_text("Decimal overflow while dividing an amount."));
    }
    proof {
        lemma_pow10_pos((MAX_SCALE - quantization) as nat);
        lemma_quantized_value_multiple(difference, quantization);
    }
    // Walk on the quantized leftover: the same number of units, carried at
    // the asked scale.
    let difference = diff_quantized;
    let positive = difference.is_sign_positive();
    let step = if positive {
        quantum(quantization)
    } else {
        quantum(quantization).neg()
    };
    let ghost qu = pow10((MAX_SCALE - quantization) as nat);
    let ghost diff0 = difference;
    let ghost total_steps = if diff0.units() >= 0 {
        diff0.units() / qu
    } else {
        (-diff0.units()) / qu
    };
    proof {
        vstd::arithmetic::div_mod::lemma_fundamental_div_mod(diff0.units(), qu);
        if diff0.units() < 0 {
            lemma_neg_multiple(diff0.units(), qu);
            vstd::arithmetic::div_mod::lemma_fundamental_div_mod(-diff0.units(), qu);
        }
        assert(total_steps >= 0);
    }
    let mut result: Vec<Dec> = Vec::new();
    let mut c: usize = 0;
    while c < divisor as usize
        invariant
            target_amount.wf(),
            c <= divisor as usize,
            result@.len() == c,
            forall|i: int| 0 <= i < c ==> (#[trigger] result@[i]) == target_amount,
        decreases divisor as usize - c,
    {
        result.push(target_amount);
        c = c + 1;
    }
    // Deal the leftover one quantum at a time from the front, cycling.
    let mut remaining = difference;
    let mut pos: usize = 0;
    let ghost d = divisor as int;
    let mut done: Ghost<int> = Ghost(0int);
    proof {
        vstd::arithmetic::div_mod::lemma_mod_multiples_basic(0, d);
        assert(0int / d == 0 && 0int % d == 0) by {
            vstd::arithmetic::div_mod::lemma_fundamental_div_mod_converse(0, d, 0, 0);
        }
        assert forall|i: int| 0 <= i < d implies dealt(i, 0, d) == 0 by {}
        assert forall|i: int| 0 <= i < d implies dealt(i, 0, d) * step.units() == 0 by {}
    }
    while !remaining.is_zero()
        invariant
            quantization <= MAX_SCALE,
            qu == pow10((MAX_SCALE - quantization) as nat),
            qu >= 1,
            target_amount.wf(),
            step.wf(),
            step.scale == quantization,
            step.units() == if positive {
                qu
            } else {
                -qu
            },
            remaining.wf(),
            remaining.scale <= quantization,
            diff0.wf(),
            amount.wf(),
            target_amount.scale <= quantization,
            spec_divide_model(amount, divisor, quantization) is Some,
            target_amount == spec_divide_model(amount, divisor, quantization)->Some_0.0,
            diff0.units() == spec_divide_model(amount, divisor, quantization)->Some_0.1.units(),
            diff0.scale <= quantization,
            diff0.units() % qu == 0,
            remaining.units() % qu == 0,
            positive == (diff0.units() >= 0),
            if positive {
                0 <= remaining.units() <= diff0.units()
            } else {
                diff0.units() <= remaining.units() <= 0
            },
            d == divisor as int,
            d >= 1,
            amount.units() == spec_quantize(amount, quantization).units(),
            result@.len() == d,
            pos < result@.len(),
            done@ >= 0,
            pos as int == done@ % d,
            done@ * qu == if positive {
                diff0.units() - remaining.units()
            } else {
                remaining.units() - diff0.units()
            },
            total_steps == if diff0.units() >= 0 {
                diff0.units() / qu
            } else {
                (-diff0.units()) / qu
            },
            forall|i: int|
                0 <= i < d ==> (#[trigger] result@[i]).wf() && result@[i].units()
                    == target_amount.units() + dealt(i, done@, d) * step.units()
                    && result@[i].scale <= crate::decimal::scale_max(target_amount.scale, quantization),
        decreases
                if positive {
                    remaining.units()
                } else {
                    -remaining.units()
                },
    {
        proof {
            if positive {
                lemma_multiple_ge(remaining.units(), qu);
            } else {
                lemma_neg_multiple(remaining.units(), qu);
                lemma_multiple_ge(-remaining.units(), qu);
            }
        }
        let cur = result[pos];
        let nv = match cur.add_exact(&step) {
            Some(v) => v,
            None => {
                proof {
                    lemma_walk_fits(
                        cur,
                        step,
                        target_amount,
                        diff0,
                        remaining,
                        dealt(pos as int, done@, d),
                        done@,
                        total_steps,
                        quantization,
                        positive,
                        d,
                        pos as int,
                    );
                }
                return Err(TabulationError::from_text(
                    "Decimal overflow while dividing an amount.",
                ));
            },
        };
        let ghost pre = result@;
        let ghost rem_pre = remaining;
        result.set(pos, nv);
        remaining = match remaining.sub_exact(&step) {
            Some(v) => v,
            None => {
                proof {
                    lemma_walk_remaining_fits(rem_pre, step, diff0, quantization, positive);
                }
                return Err(TabulationError::from_text(
                    "Decimal overflow while dividing an amount.",
                ));
            },
        };
        proof {
            vstd::arithmetic::div_mod::lemma_mod_multiples_basic(1, qu);
            vstd::arithmetic::div_mod::lemma_mod_multiples_basic(-1, qu);
            assert(1 * qu == qu && (-1) * qu == -qu) by (nonlinear_arith);
            lemma_multiple_sub(rem_pre.units(), step.units(), qu);
            assert((done@ + 1) * qu == done@ * qu + qu) by (nonlinear_arith);
            // One more quantum has been dealt: the position advances and the
            // per-position counts follow the round-robin formula.
            let n = done@;
            vstd::arithmetic::div_mod::lemma_fundamental_div_mod(n, d);
            vstd::arithmetic::div_mod::lemma_mod_bound(n, d);
            if n % d == d - 1 {
                assert(n + 1 == d * (n / d + 1) + 0) by (nonlinear_arith)
                    requires
                        n == d * (n / d) + n % d && n % d == d - 1,
                ;
                vstd::arithmetic::div_mod::lemma_fundamental_div_mod_converse(
                    n + 1,
                    d,
                    n / d + 1,
                    0,
                );
            } else {
                vstd::arithmetic::div_mod::lemma_fundamental_div_mod_converse(
                    n + 1,
                    d,
                    n / d,
                    n % d + 1,
                );
            }
            assert forall|i: int| 0 <= i < d implies (#[trigger] result@[i]).units()
                == target_amount.units() + dealt(i, n + 1, d) * step.units() by {
                if i == pos as int {
                    assert(result@[i] == nv);
                    assert(dealt(i, n + 1, d) == dealt(i, n, d) + 1);
                    assert((dealt(i, n, d) + 1) * step.units() == dealt(i, n, d) * step.units()
                        + step.units()) by (nonlinear_arith);
                } else {
                    assert(result@[i] == pre[i]);
                    assert(dealt(i, n + 1, d) == dealt(i, n, d));
                }
            }
            done@ = n + 1;
        }
        if pos >= (divisor as usize) - 1 {
            pos = 0;
        } else {
            pos = pos + 1;
        }
    }
    proof {
        // The leftover is exhausted: exactly `total_steps` quanta were dealt.
        assert(done@ * qu == if positive {
            diff0.units()
        } else {
            -diff0.units()
        });
        vstd::arithmetic::div_mod::lemma_fundamental_div_mod_converse(
            if positive {
                diff0.units()
            } else {
                -diff0.units()
            },
            qu,
            done@,
            0,
        );
        assert(done@ == total_steps);
        lemma_sum_from_dealt(result@, target_amount, total_steps, step.units(), d, qu, diff0.units(), positive);
    }
    Ok(result)
}

/// Summing the dealt shares: every position holds the base share plus its
/// dealt quanta, so the values sum to `d` shares plus the whole leftover.
proof fn lemma_sum_from_dealt(
    s: Seq<Dec>,
    base: Dec,
    n: int,
    step_units: int,
    d: int,
    qu: int,
    diff_units: int,
    positive: bool,
)
    requires
        s.len() == d,
        d >= 1,
        n >= 0,
        qu >= 1,
        step_units == if positive {
            qu
        } else {
            -qu
        },
        n * qu == if positive {
            diff_units
        } else {
            -diff_units
        },
        forall|i: int|
            0 <= i < d ==> (#[trigger] s[i]).units() == base.units() + dealt(i, n, d)
                * step_units,
    ensures
        sum_dec_units(s) == d * base.units() + diff_units,
{
    lemma_sum_dealt_prefix(s, base, n, step_units, d, s.len() as int);
    assert(s.subrange(0, d) =~= s);
    vstd::arithmetic::div_mod::lemma_fundamental_div_mod(n, d);
    // Sum of dealt counts over all positions is n.
    assert(sum_dealt(n, d, d) == n) by {
        lemma_sum_dealt_total(n, d);
    }
    assert(sum_dec_units(s) == d * base.units() + sum_dealt(n, d, d) * step_units);
    assert(n * step_units == diff_units ==> sum_dec_units(s) == d * base.units() + diff_units);
    assert(n * step_units == diff_units) by (nonlinear_arith)
        requires
            step_units == if positive {
                qu
            } else {
                -qu
            } && n * qu == if positive {
                diff_units
            } else {
                -diff_units
            },
    ;
}

/// The total dealt to the first `k` positions.
spec fn sum_dealt(n: int, d: int, k: int) -> int
    decreases
            if k >= 0 {
                k
            } else {
                0
            },
{
    if k <= 0 {
        0
    } else {
        sum_dealt(n, d, k - 1) + dealt(k - 1, n, d)
    }
}

/// The prefix sums of the shares follow the dealt counts.
proof fn lemma_sum_dealt_prefix(s: Seq<Dec>, base: Dec, n: int, step_units: int, d: int, k: int)
    requires
        s.len() == d,
        d >= 1,
        0 <= k <= d,
        forall|i: int|
            0 <= i < d ==> (#[trigger] s[i]).units() == base.units() + dealt(i, n, d)
                * step_units,
    ensures
        sum_dec_units(s.subrange(0, k)) == k * base.units() + sum_dealt(n, d, k) * step_units,
    decreases k,
{
    if k == 0 {
        assert(s.subrange(0, 0) =~= Seq::<Dec>::empty());
    } else {
        assert(s.subrange(0, k).drop_last() =~= s.subrange(0, k - 1));
        assert(s.subrange(0, k).last() == s[k - 1]);
        lemma_sum_dealt_prefix(s, base, n, step_units, d, k - 1);
        assert((sum_dealt(n, d, k - 1) + dealt(k - 1, n, d)) * step_units == sum_dealt(n, d, k - 1)
            * step_units + dealt(k - 1, n, d) * step_units) by (nonlinear_arith);
        assert(k * base.units() == (k - 1) * base.units() + base.units()) by (nonlinear_arith);
    }
}

/// Dealing `n` quanta round-robin over `d` positions hands out `n` in all.
proof fn lemma_sum_dealt_total(n: int, d: int)
    requires
        d >= 1,
        n >= 0,
    ensures
        sum_dealt(n, d, d) == n,
{
    vstd::arithmetic::div_mod::lemma_fundamental_div_mod(n, d);
    lemma_sum_dealt_split(n, d, d);
    assert(d * (n / d) + n % d == n);
}

/// The partial totals of the dealt counts: a full round each plus the
/// extras that fit in the first `k` positions.
proof fn lemma_sum_dealt_split(n: int, d: int, k: int)
    requires
        d >= 1,
        n >= 0,
        0 <= k <= d,
    ensures
        sum_dealt(n, d, k) == k * (n / d) + if k <= n % d {
            k
        } else {
            n % d
        },
    decreases k,
{
    vstd::arithmetic::div_mod::lemma_fundamental_div_mod(n, d);
    vstd::arithmetic::div_mod::lemma_mod_bound(n, d);
    if k > 0 {
        lemma_sum_dealt_split(n, d, k - 1);
        assert(k * (n / d) == (k - 1) * (n / d) + n / d) by (nonlinear_arith);
        if k - 1 < n % d {
            assert(dealt(k - 1, n, d) == n / d + 1);
        } else {
            assert(dealt(k - 1, n, d) == n / d);
        }
    } else {
        assert(sum_dealt(n, d, 0) == 0);
        assert(0 * (n / d) == 0) by (nonlinear_arith);
    }
}

/// If the base share and the fully dealt share both sit inside the
/// representable band, dealing one more quantum to a share between them
/// cannot overflow.
proof fn lemma_walk_fits(
    cur: Dec,
    step: Dec,
    base: Dec,
    diff0: Dec,
    remaining: Dec,
    k: int,
    done: int,
    total_steps: int,
    q: u32,
    positive: bool,
    d: int,
    pos: int,
)
    requires
        cur.wf(),
        step.wf(),
        base.wf(),
        diff0.wf(),
        remaining.wf(),
        q <= MAX_SCALE,
        cur.scale <= q,
        step.scale == q,
        step.units() == if positive {
            pow10((MAX_SCALE - q) as nat)
        } else {
            -pow10((MAX_SCALE - q) as nat)
        },
        positive == (diff0.units() >= 0),
        cur.units() == base.units() + k * step.units(),
        d >= 1,
        0 <= pos < d,
        done >= 0,
        k == dealt(pos, done, d),
        remaining.units() != 0,
        remaining.units() % pow10((MAX_SCALE - q) as nat) == 0,
        if positive {
            0 <= remaining.units() <= diff0.units()
        } else {
            diff0.units() <= remaining.units() <= 0
        },
        done * pow10((MAX_SCALE - q) as nat) == if positive {
            diff0.units() - remaining.units()
        } else {
            remaining.units() - diff0.units()
        },
        total_steps == if diff0.units() >= 0 {
            diff0.units() / pow10((MAX_SCALE - q) as nat)
        } else {
            (-diff0.units()) / pow10((MAX_SCALE - q) as nat)
        },
        diff0.units() % pow10((MAX_SCALE - q) as nat) == 0,
        crate::decimal::spec_add_exact(cur, step) is None,
    ensures
        !(-(MAX_MANTISSA * pow10((MAX_SCALE - q) as nat)) <= base.units() <= MAX_MANTISSA * pow10(
            (MAX_SCALE - q) as nat,
        ) && -(MAX_MANTISSA * pow10((MAX_SCALE - q) as nat)) <= base.units() + diff0.units()
            <= MAX_MANTISSA * pow10((MAX_SCALE - q) as nat)),
{
    let qu = pow10((MAX_SCALE - q) as nat);
    lemma_pow10_pos((MAX_SCALE - q) as nat);
    if -(MAX_MANTISSA * qu) <= base.units() <= MAX_MANTISSA * qu && -(MAX_MANTISSA * qu)
        <= base.units() + diff0.units() <= MAX_MANTISSA * qu {
        // The walk has dealt fewer quanta than the whole leftover, so the
        // share at hand and its successor lie between the base share and
        // the fully dealt one.
        lemma_dealt_le(pos, done, d);
        vstd::arithmetic::div_mod::lemma_fundamental_div_mod(diff0.units(), qu);
        if diff0.units() < 0 {
            lemma_neg_multiple(diff0.units(), qu);
            vstd::arithmetic::div_mod::lemma_fundamental_div_mod(-diff0.units(), qu);
            assert(total_steps * qu == qu * total_steps) by (nonlinear_arith);
            assert(total_steps * qu == -diff0.units()) by (nonlinear_arith)
                requires
                    -diff0.units() == qu * ((-diff0.units()) / qu) && total_steps == (-diff0.units())
                        / qu,
            ;
        } else {
            assert(total_steps * qu == diff0.units()) by (nonlinear_arith)
                requires
                    diff0.units() == qu * (diff0.units() / qu) && total_steps == diff0.units() / qu,
            ;
        }
        if positive {
            lemma_multiple_ge(remaining.units(), qu);
        } else {
            lemma_neg_multiple(remaining.units(), qu);
            lemma_multiple_ge(-remaining.units(), qu);
        }
        // One whole quantum of the leftover is still undealt.
        assert((done + 1) * qu <= total_steps * qu) by (nonlinear_arith)
            requires
                done * qu == (if positive {
                    diff0.units() - remaining.units()
                } else {
                    remaining.units() - diff0.units()
                }) && (if positive {
                    qu <= remaining.units()
                } else {
                    remaining.units() <= -qu
                }) && total_steps * qu == (if positive {
                    diff0.units()
                } else {
                    -diff0.units()
                }),
        ;
        crate::decimal::lemma_mul_le_cancel(done + 1, total_steps, qu);
        vstd::arithmetic::mul::lemma_mul_inequality(k, done, qu);
        vstd::arithmetic::mul::lemma_mul_inequality(k + 1, total_steps, qu);
        vstd::arithmetic::mul::lemma_mul_inequality(0, k, qu);
        assert(0 <= k * qu && (k + 1) * qu <= total_steps * qu);
        assert((k + 1) * step.units() == k * step.units() + step.units()) by (nonlinear_arith);
        assert(k * (-qu) == -(k * qu) && (k + 1) * (-qu) == -((k + 1) * qu)) by (nonlinear_arith);
        // Both the current share and the dealt one stay inside the band.
        crate::decimal::lemma_exact_add_in_band(cur, step, q);
        assert(false);
    }
}

/// Subtracting one quantum from a leftover that fits the band cannot
/// overflow.
proof fn lemma_walk_remaining_fits(remaining: Dec, step: Dec, diff0: Dec, q: u32, positive: bool)
    requires
        remaining.wf(),
        step.wf(),
        diff0.wf(),
        q <= MAX_SCALE,
        remaining.scale <= q,
        step.scale == q,
        step.units() == if positive {
            pow10((MAX_SCALE - q) as nat)
        } else {
            -pow10((MAX_SCALE - q) as nat)
        },
        positive == (diff0.units() >= 0),
        remaining.units() != 0,
        remaining.units() % pow10((MAX_SCALE - q) as nat) == 0,
        if positive {
            0 <= remaining.units() <= diff0.units()
        } else {
            diff0.units() <= remaining.units() <= 0
        },
        crate::decimal::spec_add_exact(
            remaining,
            Dec { mantissa: (-step.mantissa) as i128, scale: step.scale },
        ) is None,
    ensures
        !(-(MAX_MANTISSA * pow10((MAX_SCALE - q) as nat)) <= diff0.units() <= MAX_MANTISSA * pow10(
            (MAX_SCALE - q) as nat,
        )),
{
    let qu = pow10((MAX_SCALE - q) as nat);
    lemma_pow10_pos((MAX_SCALE - q) as nat);
    if -(MAX_MANTISSA * qu) <= diff0.units() <= MAX_MANTISSA * qu {
        let neg = Dec { mantissa: (-step.mantissa) as i128, scale: step.scale };
        assert(neg.wf());
        assert(neg.units() == -step.units()) by (nonlinear_arith)
            requires
                neg.units() == neg.mantissa * pow10((MAX_SCALE - q) as nat) && step.units()
                    == step.mantissa * pow10((MAX_SCALE - q) as nat) && neg.mantissa
                    == -step.mantissa,
        ;
        if positive {
            lemma_multiple_ge(remaining.units(), qu);
        } else {
            lemma_neg_multiple(remaining.units(), qu);
            lemma_multiple_ge(-remaining.units(), qu);
        }
        crate::decimal::lemma_exact_add_in_band(remaining, neg, q);
        assert(false);
    }
}

/// Divider fairness: however many leftover quanta are dealt, any two
/// shares differ by at most one quantum, and an earlier position never
/// receives less than a later one.
pub proof fn lemma_divider_shares_near_equal(i: int, j: int, n: int, d: int)
    requires
        d >= 1,
        n >= 0,
        0 <= i <= j < d,
    ensures
        dealt(j, n, d) <= dealt(i, n, d) <= dealt(j, n, d) + 1,
{
    vstd::arithmetic::div_mod::lemma_mod_bound(n, d);
}

} // verus!
