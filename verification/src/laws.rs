//! Laws of the statistics engine, stated and proved once for all inputs.

use vstd::prelude::*;

use crate::parser::CommandView;
use crate::stats::{
    StatModel, inv_model, spec_bump, spec_init, spec_run, spec_selected_year, spec_step, sum,
    lemma_step_inv,
};
use crate::time::TimeInfo;

verus! {

proof fn lemma_sum_zero(n: nat)
    ensures
        sum(Seq::new(n, |i: int| 0u64)) == 0,
    decreases n,
{
    if n > 0 {
        assert(Seq::new(n, |i: int| 0u64).drop_last() =~= Seq::new(
            (n - 1) as nat,
            |i: int| 0u64,
        ));
        lemma_sum_zero((n - 1) as nat);
    }
}

/// A fresh statistic satisfies the counting invariant.
pub proof fn lemma_init_inv(year: int, now: TimeInfo)
    ensures
        inv_model(spec_init(year, now)),
{
    lemma_sum_zero(24);
    lemma_sum_zero(7);
    lemma_sum_zero(366);
    lemma_sum_zero(12);
}

/// Law: in every reachable state, the selected-year command count never
/// exceeds the all-time count, and each per-bucket array of the selected
/// year (hour of day, weekday, month, day of year) sums to exactly the
/// command count; the today buckets sum to the today count.
pub proof fn lemma_bucket_sums(m: StatModel)
    requires
        inv_model(m),
    ensures
        m.count <= m.count_total,
        sum(m.daytime) == m.count,
        sum(m.weekday) == m.count,
        sum(m.month) == m.count,
        sum(m.day) == m.count,
        sum(m.daytime_today) == m.today_count,
{
}

/// Running a whole command sequence keeps the counting invariant.
pub proof fn lemma_run_inv(m: StatModel, cs: Seq<CommandView>)
    requires
        inv_model(m),
        m.count_total + cs.len() <= u64::MAX,
        forall|i: int|
            0 <= i < cs.len() ==> ((#[trigger] cs[i]).time matches Some(t) ==> t.wf()),
    ensures
        inv_model(spec_run(m, cs)),
        spec_run(m, cs).count_total == m.count_total + cs.len(),
    decreases cs.len(),
{
    if cs.len() > 0 {
        lemma_step_inv(m, cs[0]);
        let m1 = spec_step(m, cs[0]);
        assert(m1.count_total == m.count_total + 1);
        assert(forall|i: int|
            0 <= i < cs.drop_first().len() ==> ((#[trigger] cs.drop_first()[i]).time
                matches Some(t) ==> t.wf())) by {
            assert(forall|i: int|
                0 <= i < cs.drop_first().len() ==> cs.drop_first()[i] == cs[i + 1]);
        }
        lemma_run_inv(m1, cs.drop_first());
    }
}

/// Folding a command sequence from the end: one more command is one more
/// step.
pub proof fn lemma_run_snoc(m: StatModel, cs: Seq<CommandView>, c: CommandView)
    ensures
        spec_run(m, cs.push(c)) == spec_step(spec_run(m, cs), c),
    decreases cs.len(),
{
    if cs.len() == 0 {
        assert(cs.push(c)[0] == c);
        assert(cs.push(c).drop_first() =~= Seq::<CommandView>::empty());
        assert(spec_run(spec_step(m, c), Seq::empty()) == spec_step(m, c));
        assert(spec_run(m, cs.push(c)) == spec_run(
            spec_step(m, cs.push(c)[0]),
            cs.push(c).drop_first(),
        ));
        assert(spec_run(m, cs) == m);
    } else {
        assert(cs.push(c)[0] == cs[0]);
        assert(cs.push(c).drop_first() =~= cs.drop_first().push(c));
        lemma_run_snoc(spec_step(m, cs[0]), cs.drop_first(), c);
        assert(spec_run(m, cs.push(c)) == spec_run(
            spec_step(m, cs[0]),
            cs.drop_first().push(c),
        ));
        assert(spec_run(m, cs) == spec_run(spec_step(m, cs[0]), cs.drop_first()));
    }
}

/// Law: the statistics depend on nothing but the constructor arguments
/// and the command sequence.  Re-running the same commands over a freshly
/// constructed statistic always yields the same state: there is no hidden
/// dependence on wall-clock time beyond the injected `now`.
pub proof fn lemma_replay_idempotent(
    year: int,
    now: TimeInfo,
    cs: Seq<CommandView>,
    a: StatModel,
    b: StatModel,
)
    requires
        a == spec_run(spec_init(year, now), cs),
        b == spec_run(spec_init(year, now), cs),
    ensures
        a == b,
{
}

/// Law: a command timestamped in a year other than the selected one
/// counts to the all-time command totals and to its month's all-time
/// bucket, and changes nothing else: not the command count, none of the
/// selected-year or today buckets, none of the per-year, per-month or
/// per-day command counts, and not the first command.
pub proof fn lemma_other_year(m: StatModel, c: CommandView)
    requires
        c.time matches Some(t) && t.year as int != spec_selected_year(m),
    ensures
        ({
            let t = c.time.unwrap();
            let m2 = spec_step(m, c);
            &&& m2.total == spec_bump(m.total, c.command)
            &&& m2.count_total == (m.count_total + 1) as u64
            &&& m2.month_total == m.month_total.update(
                t.month0 as int,
                (m.month_total[t.month0 as int] + 1) as u64,
            )
            &&& m2.count == m.count
            &&& m2.daytime == m.daytime
            &&& m2.weekday == m.weekday
            &&& m2.day == m.day
            &&& m2.month == m.month
            &&& m2.annual == m.annual
            &&& m2.monthly == m.monthly
            &&& m2.daily == m.daily
            &&& m2.daytime_today == m.daytime_today
            &&& m2.today_count == m.today_count
            &&& m2.first_command == m.first_command
            &&& m2.first_time == m.first_time
        }),
{
}

/// Law: the order in which two commands are analyzed does not affect any
/// bucket or count; only which command is recorded as the first can depend
/// on the order, and that only through equal timestamps.
#[verifier::rlimit(100)]
pub proof fn lemma_step_buckets_commute(m: StatModel, c1: CommandView, c2: CommandView)
    requires
        inv_model(m),
        c1.time matches Some(t) ==> t.wf(),
        c2.time matches Some(t) ==> t.wf(),
    ensures
        ({
            let ab = spec_step(spec_step(m, c1), c2);
            let ba = spec_step(spec_step(m, c2), c1);
            &&& ab.daytime == ba.daytime
            &&& ab.daytime_today == ba.daytime_today
            &&& ab.weekday == ba.weekday
            &&& ab.day == ba.day
            &&& ab.month == ba.month
            &&& ab.month_total == ba.month_total
            &&& ab.total == ba.total
            &&& ab.annual == ba.annual
            &&& ab.monthly == ba.monthly
            &&& ab.daily == ba.daily
            &&& ab.count == ba.count
            &&& ab.count_total == ba.count_total
            &&& ab.today_count == ba.today_count
        }),
{
    let ab = spec_step(spec_step(m, c1), c2);
    let ba = spec_step(spec_step(m, c2), c1);
    match (c1.time, c2.time) {
        (None, None) => {
            assert(ab.total =~= ba.total);
        },
        (None, Some(t2)) => {
            crate::time::lemma_bucket_indices(t2);
            assert(ab.total =~= ba.total);
            assert(ab.month_total =~= ba.month_total);
            assert(ab.daytime =~= ba.daytime);
            assert(ab.daytime_today =~= ba.daytime_today);
            assert(ab.weekday =~= ba.weekday);
            assert(ab.day =~= ba.day);
            assert(ab.month =~= ba.month);
            assert(ab.annual =~= ba.annual);
            assert(ab.monthly =~~= ba.monthly);
            assert(ab.daily =~= ba.daily);
        },
        (Some(t1), None) => {
            crate::time::lemma_bucket_indices(t1);
            assert(ab.total =~= ba.total);
            assert(ab.month_total =~= ba.month_total);
            assert(ab.daytime =~= ba.daytime);
            assert(ab.daytime_today =~= ba.daytime_today);
            assert(ab.weekday =~= ba.weekday);
            assert(ab.day =~= ba.day);
            assert(ab.month =~= ba.month);
            assert(ab.annual =~= ba.annual);
            assert(ab.monthly =~~= ba.monthly);
            assert(ab.daily =~= ba.daily);
        },
        (Some(t1), Some(t2)) => {
            crate::time::lemma_bucket_indices(t1);
            crate::time::lemma_bucket_indices(t2);
            assert(ab.month_total =~= ba.month_total);
            assert(ab.daytime =~= ba.daytime);
            assert(ab.daytime_today =~= ba.daytime_today);
            assert(ab.weekday =~= ba.weekday);
            assert(ab.day =~= ba.day);
            assert(ab.month =~= ba.month);
            assert(ab.annual =~= ba.annual);
            assert(ab.monthly =~~= ba.monthly);
            assert(ab.daily =~= ba.daily);
        },
    }
}

} // verus!
