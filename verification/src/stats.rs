//! Bucketed usage statistics over parsed commands.
//!
//! A `Statistic` folds a stream of `Command`s into fixed time buckets
//! (hour of day, weekday, day of year, month) for one selected year, plus
//! all-time aggregates, and answers derived queries over the buckets.

use vstd::prelude::*;

use vstd::multiset::Multiset;

use crate::parser::{Command, CommandView};
use crate::text::bytes_eq;
use crate::time::{TimeInfo, is_today, spec_is_today, spec_ordinal0, spec_weekday};

verus! {

/// Sum of a sequence of counters.
pub open spec fn sum(s: Seq<u64>) -> int
    decreases s.len(),
{
    if s.len() == 0 {
        0
    } else {
        sum(s.drop_last()) + s.last()
    }
}

pub proof fn lemma_sum_nonneg(s: Seq<u64>)
    ensures
        sum(s) >= 0,
    decreases s.len(),
{
    if s.len() > 0 {
        lemma_sum_nonneg(s.drop_last());
    }
}

pub proof fn lemma_sum_update(s: Seq<u64>, i: int, v: u64)
    requires
        0 <= i < s.len(),
    ensures
        sum(s.update(i, v)) == sum(s) - s[i] + v,
    decreases s.len(),
{
    if i == s.len() - 1 {
        assert(s.update(i, v).drop_last() =~= s.drop_last());
    } else {
        assert(s.update(i, v).drop_last() =~= s.drop_last().update(i, v));
        lemma_sum_update(s.drop_last(), i, v);
    }
}

pub proof fn lemma_elem_le_sum(s: Seq<u64>, i: int)
    requires
        0 <= i < s.len(),
    ensures
        s[i] <= sum(s),
    decreases s.len(),
{
    if i == s.len() - 1 {
        lemma_sum_nonneg(s.drop_last());
    } else {
        lemma_elem_le_sum(s.drop_last(), i);
    }
}

/// A count per command name, as a map from the name's bytes.
///
/// Kept as parallel vectors of distinct keys and their counts.
pub struct CountMap {
    pub keys: Vec<Vec<u8>>,
    pub counts: Vec<u64>,
}

/// The map the parallel vectors denote.
pub open spec fn map_of(ks: Seq<Seq<u8>>, cs: Seq<u64>) -> Map<Seq<u8>, u64>
    decreases ks.len(),
{
    if ks.len() == 0 || cs.len() == 0 {
        Map::empty()
    } else {
        map_of(ks.drop_last(), cs.drop_last()).insert(ks.last(), cs.last())
    }
}

/// The count a map holds for a key, with absent keys at zero.
pub open spec fn spec_count(m: Map<Seq<u8>, u64>, k: Seq<u8>) -> int {
    if m.contains_key(k) {
        m[k] as int
    } else {
        0
    }
}

proof fn lemma_map_of_contains(ks: Seq<Seq<u8>>, cs: Seq<u64>)
    requires
        ks.len() == cs.len(),
    ensures
        forall|k: Seq<u8>|
            map_of(ks, cs).contains_key(k) <==> exists|i: int| 0 <= i < ks.len() && ks[i] == k,
    decreases ks.len(),
{
    if ks.len() > 0 {
        lemma_map_of_contains(ks.drop_last(), cs.drop_last());
        assert forall|k: Seq<u8>| map_of(ks, cs).contains_key(k) implies exists|i: int|
            0 <= i < ks.len() && ks[i] == k by {
            if k == ks.last() {
                assert(ks[ks.len() - 1] == k);
            } else {
                assert(map_of(ks.drop_last(), cs.drop_last()).contains_key(k));
                let i = choose|i: int|
                    0 <= i < ks.drop_last().len() && ks.drop_last()[i] == k;
                assert(ks.drop_last()[i] == ks[i]);
                assert(ks[i] == k);
            }
        }
        assert forall|k: Seq<u8>|
            (exists|i: int| 0 <= i < ks.len() && ks[i] == k) implies map_of(ks, cs).contains_key(
            k,
        ) by {
            let i = choose|i: int| 0 <= i < ks.len() && ks[i] == k;
            if i < ks.len() - 1 {
                assert(ks.drop_last()[i] == k);
                assert(exists|j: int|
                    0 <= j < ks.drop_last().len() && ks.drop_last()[j] == k);
                assert(map_of(ks.drop_last(), cs.drop_last()).contains_key(k));
            } else {
                assert(k == ks.last());
            }
        }
    }
}

/// Keys pairwise distinct.
pub open spec fn keys_unique(ks: Seq<Seq<u8>>) -> bool {
    forall|i: int, j: int| 0 <= i < j < ks.len() ==> ks[i] != ks[j]
}

proof fn lemma_map_of_get(ks: Seq<Seq<u8>>, cs: Seq<u64>, i: int)
    requires
        ks.len() == cs.len(),
        keys_unique(ks),
        0 <= i < ks.len(),
    ensures
        map_of(ks, cs).contains_key(ks[i]),
        map_of(ks, cs)[ks[i]] == cs[i],
    decreases ks.len(),
{
    if i == ks.len() - 1 {
    } else {
        assert(keys_unique(ks.drop_last())) by {
            assert(forall|a: int, b: int|
                0 <= a < b < ks.len() - 1 ==> ks.drop_last()[a] == ks[a] && ks.drop_last()[b]
                    == ks[b]);
        }
        lemma_map_of_get(ks.drop_last(), cs.drop_last(), i);
        assert(ks[i] != ks.last());
    }
}

proof fn lemma_map_of_update(ks: Seq<Seq<u8>>, cs: Seq<u64>, i: int, v: u64)
    requires
        ks.len() == cs.len(),
        keys_unique(ks),
        0 <= i < ks.len(),
    ensures
        map_of(ks, cs.update(i, v)) == map_of(ks, cs).insert(ks[i], v),
    decreases ks.len(),
{
    let left = map_of(ks, cs.update(i, v));
    let right = map_of(ks, cs).insert(ks[i], v);
    if i == ks.len() - 1 {
        assert(cs.update(i, v).drop_last() =~= cs.drop_last());
        assert(cs.update(i, v).last() == v);
        assert(left =~= right);
    } else {
        assert(keys_unique(ks.drop_last())) by {
            assert(forall|a: int, b: int|
                0 <= a < b < ks.len() - 1 ==> ks.drop_last()[a] == ks[a] && ks.drop_last()[b]
                    == ks[b]);
        }
        assert(cs.update(i, v).drop_last() =~= cs.drop_last().update(i, v));
        lemma_map_of_update(ks.drop_last(), cs.drop_last(), i, v);
        assert(ks.drop_last()[i] == ks[i]);
        assert(ks[i] != ks.last());
        assert(left =~= right);
    }
}

proof fn lemma_map_of_dom_len(ks: Seq<Seq<u8>>, cs: Seq<u64>)
    requires
        ks.len() == cs.len(),
        keys_unique(ks),
    ensures
        map_of(ks, cs).dom().finite(),
        map_of(ks, cs).dom().len() == ks.len(),
    decreases ks.len(),
{
    if ks.len() > 0 {
        assert(keys_unique(ks.drop_last())) by {
            assert(forall|a: int, b: int|
                0 <= a < b < ks.len() - 1 ==> ks.drop_last()[a] == ks[a] && ks.drop_last()[b]
                    == ks[b]);
        }
        lemma_map_of_dom_len(ks.drop_last(), cs.drop_last());
        lemma_map_of_contains(ks.drop_last(), cs.drop_last());
        assert(!map_of(ks.drop_last(), cs.drop_last()).contains_key(ks.last())) by {
            assert(forall|i: int| 0 <= i < ks.len() - 1 ==> ks.drop_last()[i] == ks[i]);
        }
        assert(map_of(ks, cs).dom() =~= map_of(ks.drop_last(), cs.drop_last()).dom().insert(
            ks.last(),
        ));
        vstd::set::axiom_set_insert_finite(map_of(ks.drop_last(), cs.drop_last()).dom(), ks.last());
        vstd::set::axiom_set_insert_len(map_of(ks.drop_last(), cs.drop_last()).dom(), ks.last());
    } else {
        assert(map_of(ks, cs).dom() =~= Set::<Seq<u8>>::empty());
    }
}

impl View for CountMap {
    type V = Map<Seq<u8>, u64>;

    open spec fn view(&self) -> Map<Seq<u8>, u64> {
        map_of(self.keys.deep_view(), self.counts@)
    }
}

impl CountMap {
    pub open spec fn wf(self) -> bool {
        &&& self.keys@.len() == self.counts@.len()
        &&& keys_unique(self.keys.deep_view())
    }

    pub fn new() -> (r: CountMap)
        ensures
            r.wf(),
            r@ == Map::<Seq<u8>, u64>::empty(),
            r@.dom().len() == 0,
    {
        let r = CountMap { keys: Vec::new(), counts: Vec::new() };
        proof {
            lemma_map_of_dom_len(r.keys.deep_view(), r.counts@);
        }
        r
    }

    /// Where the key sits, if it is present.
    fn index_of(&self, key: &[u8]) -> (r: Option<usize>)
        requires
            self.wf(),
        ensures
            r matches Some(i) ==> i < self.keys@.len() && self.keys.deep_view()[i as int] == key@,
            r is None ==> forall|i: int|
                0 <= i < self.keys@.len() ==> self.keys.deep_view()[i] != key@,
    {
        let n = self.keys.len();
        let mut i: usize = 0;
        while i < n
            invariant
                i <= n,
                n == self.keys@.len(),
                forall|m: int| 0 <= m < i ==> self.keys.deep_view()[m] != key@,
            decreases n - i,
        {
            if bytes_eq(self.keys[i].as_slice(), key) {
                proof {
                    assert(self.keys.deep_view()[i as int] == self.keys@[i as int]@);
                }
                return Some(i);
            }
            proof {
                assert(self.keys.deep_view()[i as int] == self.keys@[i as int]@);
            }
            i = i + 1;
        }
        None
    }

    /// The count recorded for a key; zero where none is.
    pub fn get(&self, key: &[u8]) -> (r: u64)
        requires
            self.wf(),
        ensures
            r == spec_count(self@, key@),
    {
        proof {
            lemma_map_of_contains(self.keys.deep_view(), self.counts@);
        }
        match self.index_of(key) {
            Some(i) => {
                proof {
                    lemma_map_of_get(self.keys.deep_view(), self.counts@, i as int);
                }
                self.counts[i]
            },
            None => 0,
        }
    }

    /// How many distinct keys are recorded.
    pub fn len(&self) -> (r: usize)
        requires
            self.wf(),
        ensures
            r == self@.dom().len(),
    {
        proof {
            lemma_map_of_dom_len(self.keys.deep_view(), self.counts@);
        }
        self.keys.len()
    }

    /// Adds one to the key's count, recording the key if it is new.
    pub fn bump(&mut self, key: &[u8])
        requires
            old(self).wf(),
            spec_count(old(self)@, key@) < u64::MAX,
        ensures
            final(self).wf(),
            final(self)@ == old(self)@.insert(key@, (spec_count(old(self)@, key@) + 1) as u64),
            final(self)@.dom() == old(self)@.dom().insert(key@),
    {
        proof {
            lemma_map_of_contains(self.keys.deep_view(), self.counts@);
        }
        match self.index_of(key) {
            Some(i) => {
                proof {
                    lemma_map_of_get(self.keys.deep_view(), self.counts@, i as int);
                    lemma_map_of_update(
                        self.keys.deep_view(),
                        self.counts@,
                        i as int,
                        (self.counts@[i as int] + 1) as u64,
                    );
                }
                let c = self.counts[i];
                self.counts[i] = c + 1;
                proof {
                    assert(final(self)@.dom() =~= old(self)@.dom().insert(key@));
                }
            },
            None => {
                let ghost ks0 = self.keys.deep_view();
                let ghost cs0 = self.counts@;
                self.keys.push(vstd::slice::slice_to_vec(key));
                self.counts.push(1);
                proof {
                    assert(self.keys.deep_view() =~~= ks0.push(key@));
                    assert(self.counts@ =~= cs0.push(1u64));
                    assert(ks0.push(key@).drop_last() =~= ks0);
                    assert(cs0.push(1u64).drop_last() =~= cs0);
                    assert(keys_unique(ks0.push(key@))) by {
                        assert(forall|i: int|
                            0 <= i < ks0.len() ==> ks0.push(key@)[i] == ks0[i]);
                    }
                    assert(final(self)@ == old(self)@.insert(key@, 1u64));
                    assert(final(self)@.dom() =~= old(self)@.dom().insert(key@));
                }
            },
        }
    }
}

impl DeepView for CountMap {
    type V = Map<Seq<u8>, u64>;

    open spec fn deep_view(&self) -> Map<Seq<u8>, u64> {
        self.view()
    }
}

/// The bucketed statistics of one run: detailed buckets for the selected
/// year, all-time aggregates, and "today" buckets when the run selects the
/// current year.
pub struct Statistic {
    /// The selected year; 0 selects the year `now` falls in and switches
    /// the "today" buckets on.
    pub year: i32,
    /// The instant the run was started at, fixed by the constructor.
    pub now: TimeInfo,
    /// Commands per hour of day, selected year.
    pub list_daytime: Vec<u64>,
    /// Commands per hour of day, today.
    pub list_daytime_today: Vec<u64>,
    /// Commands per weekday (Monday = 0), selected year.
    pub list_weekday: Vec<u64>,
    /// Commands per day of year, selected year.
    pub list_day: Vec<u64>,
    /// Commands per month, selected year.
    pub list_month: Vec<u64>,
    /// Commands per month, all years.
    pub list_month_total: Vec<u64>,
    /// Count per executable, all time.
    pub map_command_total: CountMap,
    /// Count per executable, today.
    pub map_command_daily: CountMap,
    /// Count per executable and month, selected year.
    pub map_command_monthly: Vec<CountMap>,
    /// Count per executable, selected year.
    pub map_command_annual: CountMap,
    /// Commands counted today.
    pub today_command_count: u64,
    /// Commands counted in the selected year.
    pub command_count: u64,
    /// Commands counted all time.
    pub command_count_total: u64,
    /// The raw text of the earliest command seen in the selected year.
    pub first_command: Vec<u8>,
    /// When that command was entered; starts at `now`.
    pub first_command_time: TimeInfo,
}

/// The mathematical state of a `Statistic`.
pub ghost struct StatModel {
    pub year: int,
    pub now: TimeInfo,
    pub daytime: Seq<u64>,
    pub daytime_today: Seq<u64>,
    pub weekday: Seq<u64>,
    pub day: Seq<u64>,
    pub month: Seq<u64>,
    pub month_total: Seq<u64>,
    pub total: Map<Seq<u8>, u64>,
    pub daily: Map<Seq<u8>, u64>,
    pub monthly: Seq<Map<Seq<u8>, u64>>,
    pub annual: Map<Seq<u8>, u64>,
    pub today_count: u64,
    pub count: u64,
    pub count_total: u64,
    pub first_command: Seq<u8>,
    pub first_time: TimeInfo,
}

impl View for Statistic {
    type V = StatModel;

    open spec fn view(&self) -> StatModel {
        StatModel {
            year: self.year as int,
            now: self.now,
            daytime: self.list_daytime@,
            daytime_today: self.list_daytime_today@,
            weekday: self.list_weekday@,
            day: self.list_day@,
            month: self.list_month@,
            month_total: self.list_month_total@,
            total: self.map_command_total@,
            daily: self.map_command_daily@,
            monthly: self.map_command_monthly.deep_view(),
            annual: self.map_command_annual@,
            today_count: self.today_command_count,
            count: self.command_count,
            count_total: self.command_count_total,
            first_command: self.first_command@,
            first_time: self.first_command_time,
        }
    }
}

/// One more for this key.
pub open spec fn spec_bump(m: Map<Seq<u8>, u64>, k: Seq<u8>) -> Map<Seq<u8>, u64> {
    m.insert(k, (spec_count(m, k) + 1) as u64)
}

/// The year whose buckets are populated: the selected one, or the current
/// one when 0 was selected.
pub open spec fn spec_selected_year(m: StatModel) -> int {
    if m.year == 0 {
        m.now.year as int
    } else {
        m.year
    }
}

/// One more in the counter at index `i`.
pub open spec fn bump_at(s: Seq<u64>, i: int) -> Seq<u64> {
    s.update(i, (s[i] + 1) as u64)
}

/// What one command does to the statistics.
///
/// Every command counts towards the all-time totals.  A timestamped one
/// also counts to its month's all-time bucket; one stamped in the selected
/// year counts to the hour, weekday, day-of-year and month buckets, to the
/// yearly and monthly per-command counts, and becomes the first command
/// where it is the earliest so far; and when the run selects the current
/// year and the command falls on today, to the today buckets as well.
pub open spec fn spec_step(m: StatModel, c: CommandView) -> StatModel {
    match c.time {
        None => StatModel {
            total: spec_bump(m.total, c.command),
            count_total: (m.count_total + 1) as u64,
            ..m
        },
        Some(t) => {
            let in_year = t.year as int == spec_selected_year(m);
            let today = in_year && m.year == 0 && spec_is_today(t, m.now);
            let first = in_year && t.epoch < m.first_time.epoch;
            let mo = t.month0 as int;
            let h = t.hour as int;
            let wd = spec_weekday(t.year as int, t.month0 as int, t.day as int);
            let d = spec_ordinal0(t.year as int, t.month0 as int, t.day as int);
            StatModel {
                year: m.year,
                now: m.now,
                daytime: if in_year {
                    bump_at(m.daytime, h)
                } else {
                    m.daytime
                },
                daytime_today: if today {
                    bump_at(m.daytime_today, h)
                } else {
                    m.daytime_today
                },
                weekday: if in_year {
                    bump_at(m.weekday, wd)
                } else {
                    m.weekday
                },
                day: if in_year {
                    bump_at(m.day, d)
                } else {
                    m.day
                },
                month: if in_year {
                    bump_at(m.month, mo)
                } else {
                    m.month
                },
                month_total: bump_at(m.month_total, mo),
                total: spec_bump(m.total, c.command),
                daily: if today {
                    spec_bump(m.daily, c.command)
                } else {
                    m.daily
                },
                monthly: if in_year {
                    m.monthly.update(mo, spec_bump(m.monthly[mo], c.command))
                } else {
                    m.monthly
                },
                annual: if in_year {
                    spec_bump(m.annual, c.command)
                } else {
                    m.annual
                },
                today_count: if today {
                    (m.today_count + 1) as u64
                } else {
                    m.today_count
                },
                count: if in_year {
                    (m.count + 1) as u64
                } else {
                    m.count
                },
                count_total: (m.count_total + 1) as u64,
                first_command: if first {
                    c.raw
                } else {
                    m.first_command
                },
                first_time: if first {
                    t
                } else {
                    m.first_time
                },
            }
        },
    }
}

/// A whole sequence of commands, in order.
pub open spec fn spec_run(m: StatModel, cs: Seq<CommandView>) -> StatModel
    decreases cs.len(),
{
    if cs.len() == 0 {
        m
    } else {
        spec_run(spec_step(m, cs[0]), cs.drop_first())
    }
}

/// The fresh state for a selected year, started at `now`.
pub open spec fn spec_init(year: int, now: TimeInfo) -> StatModel {
    StatModel {
        year: year,
        now: now,
        daytime: Seq::new(24, |i: int| 0u64),
        daytime_today: Seq::new(24, |i: int| 0u64),
        weekday: Seq::new(7, |i: int| 0u64),
        day: Seq::new(366, |i: int| 0u64),
        month: Seq::new(12, |i: int| 0u64),
        month_total: Seq::new(12, |i: int| 0u64),
        total: Map::empty(),
        daily: Map::empty(),
        monthly: Seq::new(12, |i: int| Map::empty()),
        annual: Map::empty(),
        today_count: 0,
        count: 0,
        count_total: 0,
        first_command: Seq::empty(),
        first_time: now,
    }
}

/// The structural well-formedness of the statistics: bucket shapes, map
/// shapes, and real calendar instants.
pub open spec fn stat_wf(s: Statistic) -> bool {
    &&& s.list_daytime@.len() == 24
    &&& s.list_daytime_today@.len() == 24
    &&& s.list_weekday@.len() == 7
    &&& s.list_day@.len() == 366
    &&& s.list_month@.len() == 12
    &&& s.list_month_total@.len() == 12
    &&& s.map_command_total.wf()
    &&& s.map_command_daily.wf()
    &&& s.map_command_annual.wf()
    &&& s.map_command_monthly@.len() == 12
    &&& (forall|i: int| 0 <= i < 12 ==> (#[trigger] s.map_command_monthly@[i]).wf())
    &&& s.now.wf()
    &&& s.first_command_time.wf()
}

/// The counting invariant: every per-bucket array of the selected year
/// sums to the year's command count, the today buckets sum to the today
/// count, counts only grow towards the all-time total, and every
/// per-command count stays below the matching scalar count.
pub open spec fn inv_model(m: StatModel) -> bool {
    &&& m.daytime.len() == 24
    &&& m.daytime_today.len() == 24
    &&& m.weekday.len() == 7
    &&& m.day.len() == 366
    &&& m.month.len() == 12
    &&& m.month_total.len() == 12
    &&& m.monthly.len() == 12
    &&& sum(m.daytime) == m.count
    &&& sum(m.weekday) == m.count
    &&& sum(m.month) == m.count
    &&& sum(m.day) == m.count
    &&& sum(m.daytime_today) == m.today_count
    &&& m.today_count <= m.count <= m.count_total
    &&& sum(m.month_total) <= m.count_total
    &&& (forall|k: Seq<u8>| m.total.contains_key(k) ==> m.total[k] <= m.count_total)
    &&& (forall|k: Seq<u8>| m.annual.contains_key(k) ==> m.annual[k] <= m.count)
    &&& (forall|k: Seq<u8>| m.daily.contains_key(k) ==> m.daily[k] <= m.today_count)
    &&& (forall|i: int, k: Seq<u8>|
        0 <= i < 12 && #[trigger] m.monthly[i].contains_key(k) ==> m.monthly[i][k] <= m.count)
}

/// A vector of `n` zeroed counters.
fn zero_vec(n: usize) -> (r: Vec<u64>)
    ensures
        r@ =~= Seq::new(n as nat, |i: int| 0u64),
        sum(r@) == 0,
{
    let mut v: Vec<u64> = Vec::new();
    let mut i: usize = 0;
    while i < n
        invariant
            i <= n,
            v@ =~= Seq::new(i as nat, |j: int| 0u64),
            sum(v@) == 0,
        decreases n - i,
    {
        let ghost pre = v@;
        v.push(0);
        proof {
            assert(v@.drop_last() =~= pre);
        }
        i = i + 1;
    }
    v
}

impl Statistic {
    /// A fresh, empty statistic for the selected year, with the current
    /// instant fixed once; 0 selects the year `now` falls in.
    pub fn from(year: i32, now: TimeInfo) -> (r: Statistic)
        requires
            now.wf(),
        ensures
            stat_wf(r),
            inv_model(r@),
            r@ == spec_init(year as int, now),
    {
        let mut monthly: Vec<CountMap> = Vec::new();
        let mut i: usize = 0;
        while i < 12
            invariant
                i <= 12,
                monthly@.len() == i,
                forall|j: int| 0 <= j < i ==> (#[trigger] monthly@[j]).wf(),
                monthly.deep_view() =~= Seq::new(i as nat, |j: int| Map::<Seq<u8>, u64>::empty()),
            decreases 12 - i,
        {
            let ghost pre = monthly.deep_view();
            let cm = CountMap::new();
            monthly.push(cm);
            proof {
                let target = Seq::new((i + 1) as nat, |j: int| Map::<Seq<u8>, u64>::empty());
                assert(monthly.deep_view().len() == i + 1);
                assert forall|j: int| 0 <= j < i + 1 implies monthly.deep_view()[j] == target[j] by {
                    if j < i {
                        assert(monthly.deep_view()[j] == monthly@[j]@);
                        assert(monthly@[j] == monthly@.drop_last()[j]);
                        assert(monthly.deep_view()[j] == pre[j]);
                    } else {
                        assert(monthly.deep_view()[j] == monthly@[j]@);
                        assert(monthly@[j] == cm);
                    }
                }
                assert(monthly.deep_view() =~= target);
            }
            i = i + 1;
        }
        let r = Statistic {
            year,
            now,
            list_daytime: zero_vec(24),
            list_daytime_today: zero_vec(24),
            list_weekday: zero_vec(7),
            list_day: zero_vec(366),
            list_month: zero_vec(12),
            list_month_total: zero_vec(12),
            map_command_total: CountMap::new(),
            map_command_daily: CountMap::new(),
            map_command_monthly: monthly,
            map_command_annual: CountMap::new(),
            today_command_count: 0,
            command_count: 0,
            command_count_total: 0,
            first_command: Vec::new(),
            first_command_time: now,
        };
        proof {
            assert(r@ == spec_init(year as int, now)) by {
                assert(r@.daytime =~= spec_init(year as int, now).daytime);
                assert(r@.daytime_today =~= spec_init(year as int, now).daytime_today);
                assert(r@.weekday =~= spec_init(year as int, now).weekday);
                assert(r@.day =~= spec_init(year as int, now).day);
                assert(r@.month =~= spec_init(year as int, now).month);
                assert(r@.month_total =~= spec_init(year as int, now).month_total);
                assert(r@.monthly =~~= spec_init(year as int, now).monthly);
                assert(r@.first_command =~= spec_init(year as int, now).first_command);
            }
        }
        r
    }
}

/// One step keeps the counting invariant.
pub proof fn lemma_step_inv(m: StatModel, c: CommandView)
    requires
        inv_model(m),
        m.count_total < u64::MAX,
        c.time matches Some(t) ==> t.wf(),
    ensures
        inv_model(spec_step(m, c)),
{
    match c.time {
        None => {},
        Some(t) => {
            let in_year = t.year as int == spec_selected_year(m);
            let today = in_year && m.year == 0 && spec_is_today(t, m.now);
            let mo = t.month0 as int;
            let h = t.hour as int;
            let wd = spec_weekday(t.year as int, t.month0 as int, t.day as int);
            let d = spec_ordinal0(t.year as int, t.month0 as int, t.day as int);
            crate::time::lemma_ordinal0_in_year(t.year as int, t.month0 as int, t.day as int);
            assert(0 <= wd < 7) by {
                vstd::arithmetic::div_mod::lemma_mod_bound(
                    crate::time::spec_day_number(t.year as int, t.month0 as int, t.day as int)
                        + 5,
                    7,
                );
            }
            lemma_elem_le_sum(m.month_total, mo);
            lemma_sum_update(m.month_total, mo, (m.month_total[mo] + 1) as u64);
            if in_year {
                lemma_elem_le_sum(m.daytime, h);
                lemma_sum_update(m.daytime, h, (m.daytime[h] + 1) as u64);
                lemma_elem_le_sum(m.weekday, wd);
                lemma_sum_update(m.weekday, wd, (m.weekday[wd] + 1) as u64);
                lemma_elem_le_sum(m.month, mo);
                lemma_sum_update(m.month, mo, (m.month[mo] + 1) as u64);
                lemma_elem_le_sum(m.day, d);
                lemma_sum_update(m.day, d, (m.day[d] + 1) as u64);
            }
            if today {
                lemma_elem_le_sum(m.daytime_today, h);
                lemma_sum_update(m.daytime_today, h, (m.daytime_today[h] + 1) as u64);
            }
            let m2 = spec_step(m, c);
            assert(forall|i: int, k: Seq<u8>|
                0 <= i < 12 && #[trigger] m2.monthly[i].contains_key(k) ==> m2.monthly[i][k]
                    <= m2.count);
        },
    }
}

impl Statistic {
    /// Folds one command into the statistics, as `spec_step` says.
    pub fn analyze(&mut self, c: &Command)
        requires
            stat_wf(*old(self)),
            inv_model(old(self)@),
            old(self).command_count_total < u64::MAX,
            c@.time matches Some(t) ==> t.wf(),
        ensures
            stat_wf(*final(self)),
            inv_model(final(self)@),
            final(self)@ == spec_step(old(self)@, c@),
    {
        proof {
            lemma_step_inv(old(self)@, c@);
        }
        let ghost m = old(self)@;
        proof {
            if m.total.contains_key(c.command@) {
                assert(m.total[c.command@] <= m.count_total);
            }
        }
        self.map_command_total.bump(c.command.as_slice());
        self.command_count_total = self.command_count_total + 1;
        let time = match &c.time {
            Some(t) => *t,
            None => {
                proof {
                    assert(self@ == spec_step(m, c@));
                }
                return ;
            },
        };
        let month = time.month0 as usize;
        proof {
            lemma_elem_le_sum(self.list_month_total@, month as int);
            lemma_sum_nonneg(m.daytime_today);
        }
        let mt = self.list_month_total[month];
        self.list_month_total[month] = mt + 1;
        let sel = if self.year == 0 {
            self.now.year
        } else {
            self.year
        };
        if time.year != sel {
            proof {
                assert(self@ == spec_step(m, c@));
            }
            return ;
        }
        let hour = time.hour as usize;
        let wd = time.weekday() as usize;
        let day = time.ordinal0() as usize;
        proof {
            lemma_elem_le_sum(self.list_daytime@, hour as int);
            lemma_elem_le_sum(self.list_weekday@, wd as int);
            lemma_elem_le_sum(self.list_month@, month as int);
            lemma_elem_le_sum(self.list_day@, day as int);
        }
        let v = self.list_daytime[hour];
        self.list_daytime[hour] = v + 1;
        let v = self.list_weekday[wd];
        self.list_weekday[wd] = v + 1;
        let v = self.list_month[month];
        self.list_month[month] = v + 1;
        let v = self.list_day[day];
        self.list_day[day] = v + 1;
        self.command_count = self.command_count + 1;
        if time.epoch < self.first_command_time.epoch {
            self.first_command = vstd::slice::slice_to_vec(c.command_raw.as_slice());
            self.first_command_time = time;
        }
        proof {
            if self.map_command_annual@.contains_key(c.command@) {
                assert(self.map_command_annual@[c.command@] <= m.count);
            }
        }
        self.map_command_annual.bump(c.command.as_slice());
        let ghost monthly_pre = self.map_command_monthly.deep_view();
        proof {
            assert(monthly_pre[month as int] == self.map_command_monthly@[month as int]@);
            if monthly_pre[month as int].contains_key(c.command@) {
                assert(m.monthly[month as int].contains_key(c.command@));
            }
        }
        self.map_command_monthly[month].bump(c.command.as_slice());
        proof {
            assert(self.map_command_monthly.deep_view() =~~= monthly_pre.update(
                month as int,
                spec_bump(monthly_pre[month as int], c.command@),
            ));
        }
        if self.year == 0 && is_today(&time, &self.now) {
            proof {
                lemma_elem_le_sum(self.list_daytime_today@, hour as int);
                if self.map_command_daily@.contains_key(c.command@) {
                    assert(self.map_command_daily@[c.command@] <= m.today_count);
                }
            }
            self.today_command_count = self.today_command_count + 1;
            let v = self.list_daytime_today[hour];
            self.list_daytime_today[hour] = v + 1;
            self.map_command_daily.bump(c.command.as_slice());
        }
        proof {
            assert(self@ == spec_step(m, c@));
        }
    }
}

/// The key/count pairs of two parallel sequences.
pub open spec fn pairs_of(ks: Seq<Seq<u8>>, cs: Seq<u64>) -> Seq<(Seq<u8>, u64)> {
    Seq::new(ks.len(), |i: int| (ks[i], cs[i]))
}

/// The views of a vector of key/count pairs.
pub open spec fn pairs_view(s: Seq<(Vec<u8>, u64)>) -> Seq<(Seq<u8>, u64)> {
    Seq::new(s.len(), |i: int| (s[i].0@, s[i].1))
}

impl CountMap {
    /// The recorded commands with their counts, most used first; ties in
    /// some order.
    pub fn sorted_desc(&self) -> (r: Vec<(Vec<u8>, u64)>)
        requires
            self.wf(),
        ensures
            pairs_view(r@).to_multiset() == pairs_of(self.keys.deep_view(), self.counts@)
                .to_multiset(),
            forall|i: int, j: int| 0 <= i <= j < r@.len() ==> r@[i].1 >= r@[j].1,
    {
        broadcast use vstd::seq_lib::group_to_multiset_ensures;

        let mut ks: Vec<Vec<u8>> = Vec::new();
        let mut cs: Vec<u64> = Vec::new();
        let n = self.keys.len();
        let mut i: usize = 0;
        while i < n
            invariant
                i <= n,
                n == self.keys@.len() == self.counts@.len(),
                ks.deep_view() =~= self.keys.deep_view().subrange(0, i as int),
                cs@ =~= self.counts@.subrange(0, i as int),
            decreases n - i,
        {
            let ghost kpre = ks.deep_view();
            ks.push(vstd::slice::slice_to_vec(self.keys[i].as_slice()));
            cs.push(self.counts[i]);
            proof {
                assert(ks.deep_view() =~~= kpre.push(self.keys.deep_view()[i as int]));
                assert(ks.deep_view() =~~= self.keys.deep_view().subrange(0, i + 1));
                assert(cs@ =~= self.counts@.subrange(0, i + 1));
            }
            i = i + 1;
        }
        proof {
            assert(self.keys.deep_view().subrange(0, n as int) =~~= self.keys.deep_view());
            assert(self.counts@.subrange(0, n as int) =~= self.counts@);
            assert(pairs_of(ks.deep_view(), cs@) =~= pairs_of(
                self.keys.deep_view(),
                self.counts@,
            ));
        }
        let ghost all = pairs_of(self.keys.deep_view(), self.counts@);
        let mut r: Vec<(Vec<u8>, u64)> = Vec::new();
        proof {
            assert(pairs_view(r@) =~= Seq::<(Seq<u8>, u64)>::empty());
            assert(pairs_view(r@).to_multiset().add(pairs_of(ks.deep_view(), cs@).to_multiset())
                =~= all.to_multiset());
        }
        while cs.len() > 0
            invariant
                ks@.len() == cs@.len(),
                pairs_view(r@).to_multiset().add(pairs_of(ks.deep_view(), cs@).to_multiset())
                    == all.to_multiset(),
                forall|i: int, j: int| 0 <= i <= j < r@.len() ==> r@[i].1 >= r@[j].1,
                forall|i: int, j: int|
                    0 <= i < r@.len() && 0 <= j < cs@.len() ==> r@[i].1 >= cs@[j],
            decreases cs@.len(),
        {
            let m = first_argmax(&cs);
            let ghost ksv = ks.deep_view();
            let ghost csv = cs@;
            let key = ks.remove(m);
            let cnt = cs.remove(m);
            let ghost rpre = r@;
            proof {
                assert(ksv[m as int] == key@);
                assert(cnt == csv[m as int]);
            }
            r.push((key, cnt));
            proof {
                assert(pairs_of(ks.deep_view(), cs@) =~= pairs_of(ksv, csv).remove(m as int));
                assert(pairs_view(r@) =~= pairs_view(rpre).push((ksv[m as int], cnt)));
                assert(pairs_of(ksv, csv)[m as int] == (ksv[m as int], cnt));
                vstd::seq_lib::to_multiset_remove(pairs_of(ksv, csv), m as int);
                vstd::seq_lib::to_multiset_build(pairs_view(rpre), (ksv[m as int], cnt));
                assert(pairs_of(ksv, csv).remove(m as int).to_multiset() =~= pairs_of(ksv, csv)
                    .to_multiset().remove((ksv[m as int], cnt)));
                assert(pairs_view(r@).to_multiset() =~= pairs_view(rpre).to_multiset().insert(
                    (ksv[m as int], cnt),
                ));
                assert(pairs_of(ksv, csv).to_multiset().contains((ksv[m as int], cnt))) by {
                    assert(pairs_of(ksv, csv).contains((ksv[m as int], cnt)));
                    vstd::seq_lib::to_multiset_contains(pairs_of(ksv, csv), (ksv[m as int], cnt));
                }
                assert(pairs_view(r@).to_multiset().add(
                    pairs_of(ks.deep_view(), cs@).to_multiset(),
                ) =~= all.to_multiset());
            }
        }
        proof {
            assert(pairs_of(ks.deep_view(), cs@).to_multiset() =~= Multiset::<(
                Seq<u8>,
                u64,
            )>::empty()) by {
                assert(pairs_of(ks.deep_view(), cs@) =~= Seq::<(Seq<u8>, u64)>::empty());
            }
            assert(pairs_view(r@).to_multiset() =~= all.to_multiset());
        }
        r
    }
}

/// The first index attaining the maximum of the counters.
pub open spec fn is_first_max(s: Seq<u64>, i: int) -> bool {
    &&& 0 <= i < s.len()
    &&& (forall|j: int| 0 <= j < s.len() ==> s[j] <= s[i])
    &&& (forall|j: int| 0 <= j < i ==> s[j] < s[i])
}

/// The argmax of a non-empty bucket array, ties resolved to the lowest
/// index.
fn first_argmax(v: &Vec<u64>) -> (r: usize)
    requires
        v@.len() > 0,
    ensures
        is_first_max(v@, r as int),
        r < v@.len(),
{
    let n = v.len();
    let mut best: usize = 0;
    let mut i: usize = 1;
    while i < n
        invariant
            best < i <= n,
            n == v@.len(),
            forall|j: int| 0 <= j < i ==> v@[j] <= v@[best as int],
            forall|j: int| 0 <= j < best ==> v@[j] < v@[best as int],
        decreases n - i,
    {
        if v[i] > v[best] {
            best = i;
        }
        i = i + 1;
    }
    best
}

/// Hourly counts in the window `[lo, hi)`.
pub open spec fn spec_window_sum(daytime: Seq<u64>, lo: int, hi: int) -> int {
    sum(daytime.subrange(lo, hi))
}

pub open spec fn spec_period_lo(i: int) -> int {
    if i == 0 {
        0
    } else if i == 1 {
        6
    } else if i == 2 {
        11
    } else if i == 3 {
        14
    } else {
        19
    }
}

pub open spec fn spec_period_hi(i: int) -> int {
    if i == 0 {
        6
    } else if i == 1 {
        11
    } else if i == 2 {
        14
    } else if i == 3 {
        19
    } else {
        24
    }
}

/// Mean hourly count of one of the five fixed windows of the day.
pub open spec fn spec_period_mean(daytime: Seq<u64>, i: int) -> int {
    spec_window_sum(daytime, spec_period_lo(i), spec_period_hi(i)) / (spec_period_hi(i)
        - spec_period_lo(i))
}

pub open spec fn spec_period_name(i: int) -> Seq<char> {
    if i == 0 {
        "Late Night"@
    } else if i == 1 {
        "Morning"@
    } else if i == 2 {
        "Noon"@
    } else if i == 3 {
        "Afternoon"@
    } else {
        "Evening"@
    }
}

/// The first of the five windows attaining the largest mean.
pub open spec fn is_best_period(daytime: Seq<u64>, i: int) -> bool {
    &&& 0 <= i < 5
    &&& (forall|j: int| 0 <= j < 5 ==> spec_period_mean(daytime, j) <= spec_period_mean(daytime, i))
    &&& (forall|j: int| 0 <= j < i ==> spec_period_mean(daytime, j) < spec_period_mean(daytime, i))
}

proof fn lemma_sum_subrange_le(s: Seq<u64>, lo: int, hi: int)
    requires
        0 <= lo <= hi <= s.len(),
    ensures
        0 <= sum(s.subrange(lo, hi)) <= sum(s),
    decreases s.len() - hi, lo,
{
    lemma_sum_nonneg(s.subrange(lo, hi));
    if hi < s.len() {
        assert(s.subrange(lo, hi + 1).drop_last() =~= s.subrange(lo, hi));
        lemma_sum_subrange_le(s, lo, hi + 1);
    } else if lo > 0 {
        assert(s.subrange(lo - 1, hi).drop_first() =~= s.subrange(lo, hi));
        assert(sum(s.subrange(lo - 1, hi)) == s[lo - 1] + sum(s.subrange(lo, hi))) by {
            lemma_sum_drop_first(s.subrange(lo - 1, hi));
        }
        lemma_sum_subrange_le(s, lo - 1, hi);
    } else {
        assert(s.subrange(0, s.len() as int) =~= s);
    }
}

proof fn lemma_sum_drop_first(s: Seq<u64>)
    requires
        s.len() > 0,
    ensures
        sum(s) == s[0] + sum(s.drop_first()),
    decreases s.len(),
{
    if s.len() == 1 {
        assert(s.drop_first() =~= Seq::<u64>::empty());
        assert(s.drop_last() =~= Seq::<u64>::empty());
    } else {
        lemma_sum_drop_first(s.drop_last());
        assert(s.drop_last().drop_first() =~= s.drop_first().drop_last());
        assert(s.drop_last()[0] == s[0]);
        assert(s.drop_first().last() == s.last());
    }
}

impl Statistic {
    /// Sum of the hourly buckets in `[lo, hi)`.
    fn window_sum(&self, lo: usize, hi: usize) -> (r: u64)
        requires
            stat_wf(*self),
            inv_model(self@),
            lo <= hi <= 24,
        ensures
            r == spec_window_sum(self@.daytime, lo as int, hi as int),
    {
        proof {
            lemma_sum_subrange_le(self@.daytime, lo as int, hi as int);
        }
        let mut acc: u64 = 0;
        let mut i: usize = lo;
        proof {
            assert(self@.daytime.subrange(lo as int, lo as int) =~= Seq::<u64>::empty());
        }
        while i < hi
            invariant
                stat_wf(*self),
                inv_model(self@),
                lo <= i <= hi <= 24,
                acc == sum(self@.daytime.subrange(lo as int, i as int)),
            decreases hi - i,
        {
            proof {
                lemma_sum_subrange_le(self@.daytime, lo as int, i + 1);
                assert(self@.daytime.subrange(lo as int, i + 1).drop_last() =~= self@.daytime
                    .subrange(lo as int, i as int));
                assert(sum(self@.daytime) == self@.count);
            }
            acc = acc + self.list_daytime[i];
            i = i + 1;
        }
        acc
    }

    /// The label of the daily window with the highest mean hourly count,
    /// ties resolved towards the earlier window: one of Late Night
    /// `[0,6)`, Morning `[6,11)`, Noon `[11,14)`, Afternoon `[14,19)`,
    /// Evening `[19,24)`.
    pub fn most_active_period(&self) -> (r: &'static str)
        requires
            stat_wf(*self),
            inv_model(self@),
        ensures
            exists|i: int| is_best_period(self@.daytime, i) && r@ == spec_period_name(i),
    {
        let mut means: Vec<u64> = Vec::new();
        means.push(self.window_sum(0, 6) / 6);
        means.push(self.window_sum(6, 11) / 5);
        means.push(self.window_sum(11, 14) / 3);
        means.push(self.window_sum(14, 19) / 5);
        means.push(self.window_sum(19, 24) / 5);
        proof {
            assert(means@[0] == spec_period_mean(self@.daytime, 0));
            assert(means@[1] == spec_period_mean(self@.daytime, 1));
            assert(means@[2] == spec_period_mean(self@.daytime, 2));
            assert(means@[3] == spec_period_mean(self@.daytime, 3));
            assert(means@[4] == spec_period_mean(self@.daytime, 4));
        }
        let best = first_argmax(&means);
        proof {
            assert(is_best_period(self@.daytime, best as int));
        }
        if best == 0 {
            let name = "Late Night";
            proof {
                assert(is_best_period(self@.daytime, 0) && name@ == spec_period_name(0));
            }
            name
        } else if best == 1 {
            let name = "Morning";
            proof {
                assert(is_best_period(self@.daytime, 1) && name@ == spec_period_name(1));
            }
            name
        } else if best == 2 {
            let name = "Noon";
            proof {
                assert(is_best_period(self@.daytime, 2) && name@ == spec_period_name(2));
            }
            name
        } else if best == 3 {
            let name = "Afternoon";
            proof {
                assert(is_best_period(self@.daytime, 3) && name@ == spec_period_name(3));
            }
            name
        } else {
            let name = "Evening";
            proof {
                assert(is_best_period(self@.daytime, 4) && name@ == spec_period_name(4));
            }
            name
        }
    }

    /// The weekday with the most commands (Monday = 0) and its count, ties
    /// resolved to the earliest weekday.
    pub fn most_active_weekday(&self) -> (r: (usize, u64))
        requires
            stat_wf(*self),
        ensures
            r.0 < 7,
            r.1 == self@.weekday[r.0 as int],
            is_first_max(self@.weekday, r.0 as int),
    {
        let i = first_argmax(&self.list_weekday);
        (i, self.list_weekday[i])
    }

    /// The month with the most commands (January = 0) and its count, ties
    /// resolved to the earliest month.
    pub fn most_active_month(&self) -> (r: (usize, u64))
        requires
            stat_wf(*self),
        ensures
            r.0 < 12,
            r.1 == self@.month[r.0 as int],
            is_first_max(self@.month, r.0 as int),
    {
        let i = first_argmax(&self.list_month);
        (i, self.list_month[i])
    }

    /// Folds a whole command sequence into the statistics, in order.
    pub fn analyze_all(&mut self, cmds: &Vec<Command>)
        requires
            stat_wf(*old(self)),
            inv_model(old(self)@),
            old(self).command_count_total + cmds@.len() <= u64::MAX,
            forall|i: int|
                0 <= i < cmds@.len() ==> ((#[trigger] cmds@[i])@.time matches Some(t) ==> t.wf()),
        ensures
            stat_wf(*final(self)),
            inv_model(final(self)@),
            final(self)@ == spec_run(old(self)@, cmds.deep_view()),
    {
        let ghost m0 = old(self)@;
        let ghost views = cmds.deep_view();
        let n = cmds.len();
        let mut i: usize = 0;
        proof {
            assert(views.subrange(0, 0) =~= Seq::<CommandView>::empty());
        }
        while i < n
            invariant
                i <= n,
                n == cmds@.len(),
                views == cmds.deep_view(),
                views.len() == n,
                forall|j: int|
                    0 <= j < n ==> ((#[trigger] cmds@[j])@.time matches Some(t) ==> t.wf()),
                stat_wf(*self),
                inv_model(self@),
                self@ == spec_run(m0, views.subrange(0, i as int)),
                self@.count_total == m0.count_total + i,
                m0.count_total + n <= u64::MAX,
            decreases n - i,
        {
            proof {
                assert(views[i as int] == cmds@[i as int]@);
            }
            self.analyze(&cmds[i]);
            proof {
                assert(views.subrange(0, i + 1).drop_last() =~= views.subrange(0, i as int));
                crate::laws::lemma_run_snoc(
                    m0,
                    views.subrange(0, i as int),
                    views[i as int],
                );
                assert(views.subrange(0, i as int).push(views[i as int]) =~= views.subrange(
                    0,
                    i + 1,
                ));
            }
            i = i + 1;
        }
        proof {
            assert(views.subrange(0, n as int) =~= views);
        }
    }

    /// Parses one raw history block and folds every command it yields into
    /// the statistics, in order.  A malformed block changes nothing and
    /// reports the parse error; malformed segments inside a good block are
    /// skipped.
    pub fn ingest_block(&mut self, provider: &crate::history::HistoryProvider, block: Vec<u8>) -> (r:
        Result<(), crate::HistoryError>)
        requires
            stat_wf(*old(self)),
            inv_model(old(self)@),
            old(self).command_count_total + block@.len() + 1 <= u64::MAX,
        ensures
            stat_wf(*final(self)),
            inv_model(final(self)@),
            r is Ok <==> crate::parser::spec_ctext(*provider, block@) is Some,
            r matches Ok(u) ==> exists|t: Option<TimeInfo>|
                #[trigger] crate::parser::spec_time_ok(*provider, block@, t) && final(self)@
                    == spec_run(
                    old(self)@,
                    crate::parser::spec_cmds_of(
                        crate::parser::spec_ctext(*provider, block@).unwrap(),
                        t,
                    ),
                ),
            r matches Err(e) ==> e == crate::HistoryError::ParseError && *final(self) == *old(
                self,
            ),
    {
        let ghost blockv = block@;
        match crate::parser::CommandParser::from_raw(block).parse(provider) {
            Ok(p) => {
                let ghost t = choose|t: Option<TimeInfo>|
                    #[trigger] crate::parser::spec_time_ok(*provider, blockv, t) && p.commands
                        .deep_view() == Seq::<CommandView>::empty()
                        + crate::parser::spec_cmds_of(
                        crate::parser::spec_ctext(*provider, blockv).unwrap(),
                        t,
                    );
                let ghost text = crate::parser::spec_ctext(*provider, blockv).unwrap();
                let ghost cmds_spec = crate::parser::spec_cmds_of(text, t);
                proof {
                    assert(Seq::<CommandView>::empty() + cmds_spec =~= cmds_spec);
                    crate::parser::lemma_ctext_len(*provider, blockv);
                    crate::parser::lemma_split_cmds_len(text);
                    crate::parser::lemma_cmds_of_segs_len(
                        crate::parser::spec_split_cmds(text),
                        t,
                    );
                    crate::parser::lemma_cmds_of_segs_time(
                        crate::parser::spec_split_cmds(text),
                        t,
                    );
                    crate::parser::lemma_time_ok_wf(*provider, blockv, t);
                }
                let cmds = p.finish();
                proof {
                    assert(cmds.deep_view() =~~= cmds_spec);
                    assert forall|i: int| 0 <= i < cmds@.len() implies ((#[trigger] cmds@[i])@.time
                        matches Some(ti) ==> ti.wf()) by {
                        assert(cmds@[i]@ == cmds.deep_view()[i]);
                        assert(crate::parser::spec_cmds_of_segs(
                            crate::parser::spec_split_cmds(text),
                            t,
                        )[i].time == t);
                    }
                }
                self.analyze_all(&cmds);
                proof {
                    assert(crate::parser::spec_time_ok(*provider, blockv, t) && final(self)@
                        == spec_run(old(self)@, cmds_spec));
                }
                Ok(())
            },
            Err(e) => Err(e),
        }
    }

    /// The day of the year with the most commands and its count, ties
    /// resolved to the earliest day.
    pub fn peak_day(&self) -> (r: (usize, u64))
        requires
            stat_wf(*self),
        ensures
            r.0 < 366,
            r.1 == self@.day[r.0 as int],
            is_first_max(self@.day, r.0 as int),
    {
        let i = first_argmax(&self.list_day);
        (i, self.list_day[i])
    }
}

} // verus!
