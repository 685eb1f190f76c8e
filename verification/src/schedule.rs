//! When the training loop writes a checkpoint.
use vstd::prelude::*;

verus! {

/// The step count before an iteration that ended at `total` after `span`
/// steps, clamped at 0.
pub open spec fn steps_before(total: int, span: int) -> int {
    if total >= span {
        total - span
    } else {
        0
    }
}

/// A checkpoint is due after an iteration that took the step count from
/// `total - span` (at least 0) to `total` when the count passed a multiple of
/// `every` on the way: the whole number of `every`s in `total` grew.
pub fn checkpoint_due(total: u64, span: u64, every: u64) -> (due: bool)
    requires
        every > 0,
    ensures
        due == (total / every > (steps_before(total as int, span as int) as u64) / every),
{
    let before: u64 = if total >= span {
        total - span
    } else {
        0
    };
    total / every > before / every
}

/// A checkpoint is due exactly when some positive multiple of `every` lies
/// after the step count before the iteration and at or below the count after
/// it.
pub proof fn lemma_checkpoint_due_crosses_multiple(total: u64, span: u64, every: u64)
    requires
        every > 0,
    ensures
        (total / every > (steps_before(total as int, span as int) as u64) / every) <==> exists|m: int|
            #![trigger m * every]
            0 < m && steps_before(total as int, span as int) < m * every <= total,
{
    let b: int = steps_before(total as int, span as int);
    let t: int = total as int;
    let e: int = every as int;
    let qt: int = t / e;
    let qb: int = b / e;
    assert(0 <= b <= t);
    assert((b as u64) as int == b);
    vstd::arithmetic::div_mod::lemma_fundamental_div_mod(t, e);
    vstd::arithmetic::div_mod::lemma_fundamental_div_mod(b, e);
    assert(0 <= t % e < e && 0 <= b % e < e);
    if qt > qb {
        let m: int = qb + 1;
        assert(m * e <= t) by (nonlinear_arith)
            requires
                m <= qt,
                e > 0,
                t == e * qt + t % e,
                t % e >= 0,
        ;
        assert(b < m * e) by (nonlinear_arith)
            requires
                m == qb + 1,
                b == e * qb + b % e,
                b % e < e,
        ;
        assert(0 <= qb) by (nonlinear_arith)
            requires
                0 <= b,
                e > 0,
                b == e * qb + b % e,
                b % e < e,
        ;
        assert(m * every == m * e);
        assert(0 < m && b < m * every <= total);
    } else {
        assert forall|m: int| 0 < m && b < #[trigger] (m * every) implies m * every > total by {
            assert(m * e > t) by (nonlinear_arith)
                requires
                    b < m * e,
                    qt <= qb,
                    e > 0,
                    t == e * qt + t % e,
                    t % e < e,
                    b == e * qb + b % e,
                    b % e < e,
                    b % e >= 0,
            ;
        }
    }
}

} // verus!
