use vstd::prelude::*;
use crate::cache::entry_lt;
use crate::field::Field;
use crate::judges::Judge;
use crate::risk::{lemma_risk_bounds, lemma_risk_le_lt_trans, Risk};

verus! {

/// Every cached probability is a well-formed fraction, so it lies between
/// 0 and 1 inclusive.
pub proof fn lemma_cached_probability_in_range(f: Field, i: int)
    requires
        f.wf(),
        0 <= i < f.risk_cache.entries@.len(),
    ensures
        f.risk_cache.entries@[i].0.valid(),
        (Risk { num: 0, den: 1 }).le(f.risk_cache.entries@[i].0),
        f.risk_cache.entries@[i].0.le(Risk { num: 1, den: 1 }),
{
    lemma_risk_bounds(f.risk_cache.entries@[i].0);
}

/// `has_safe` holds exactly when some cached probability is strictly below
/// 1 — or, under the Random and Strict policies, exactly when some cached
/// probability is 0.
pub proof fn lemma_has_safe_characterisation(f: Field)
    requires
        f.wf(),
    ensures
        f.judge != Judge::Random && f.judge != Judge::Strict ==> (f.spec_has_safe()
            <==> exists|i: int|
            0 <= i < f.risk_cache.entries@.len() && (#[trigger] f.risk_cache.entries@[i]).0.lt(
                Risk { num: 1, den: 1 },
            )),
        f.judge == Judge::Random || f.judge == Judge::Strict ==> (f.spec_has_safe()
            <==> exists|i: int|
            0 <= i < f.risk_cache.entries@.len() && (
            #[trigger] f.risk_cache.entries@[i]).0.spec_is_zero()),
{
    let entries = f.risk_cache.entries@;
    let best = f.risk_cache.spec_global_best();
    let one = Risk { num: 1, den: 1 };
    if entries.len() == 0 {
        assert(best == one);
        assert(!best.lt(one));
        assert(!best.spec_is_zero());
    } else {
        assert(best == entries[0].0);
        lemma_risk_bounds(best);
        if best.lt(one) {
            assert(entries[0].0.lt(one));
        }
        if exists|i: int|
            0 <= i < entries.len() && (#[trigger] entries[i]).0.lt(one) {
            let i = choose|i: int|
                0 <= i < entries.len() && (#[trigger] entries[i]).0.lt(one);
            if i > 0 {
                assert(entry_lt(entries[0], entries[i]));
                lemma_risk_bounds(entries[i].0);
                if entries[0].0.lt(entries[i].0) {
                    lemma_risk_le_lt_trans(entries[0].0, entries[i].0, one) ;
                } else {
                    assert(entries[0].0.eq_val(entries[i].0));
                    assert(entries[i].0.num < entries[i].0.den);
                    assert(entries[0].0.num < entries[0].0.den) by (nonlinear_arith)
                        requires
                            entries[0].0.num * entries[i].0.den == entries[i].0.num * entries[0].0.den,
                            entries[i].0.num < entries[i].0.den,
                            1 <= entries[0].0.den,
                            1 <= entries[i].0.den,
                    ;
                    assert(entries[0].0.lt(one));
                }
            }
            assert(best.lt(one));
        }
        if best.spec_is_zero() {
            assert(entries[0].0.spec_is_zero());
        }
        if exists|i: int|
            0 <= i < entries.len() && (#[trigger] entries[i]).0.spec_is_zero() {
            let i = choose|i: int|
                0 <= i < entries.len() && (#[trigger] entries[i]).0.spec_is_zero();
            if i > 0 {
                assert(entry_lt(entries[0], entries[i]));
                assert(entries[0].0.le(entries[i].0));
                assert(entries[0].0.num == 0) by (nonlinear_arith)
                    requires
                        entries[0].0.num * entries[i].0.den <= entries[i].0.num
                            * entries[0].0.den,
                        entries[i].0.num == 0,
                        1 <= entries[i].0.den,
                        0 <= entries[0].0.num,
                ;
            }
        }
    }
}

} // verus!
