use vstd::prelude::*;

verus! {

use crate::strategy::Strategy;
use crate::binomial::bin_peak;
use crate::binomial::hyp_peak;
use crate::binomial::quantized_rank;
use crate::binomial::lemma_hyp_peak_range;

/// Always takes the first slot of the gap.
pub struct FirstAvailableStrategy;

impl Strategy for FirstAvailableStrategy {
    open spec fn wf(&self) -> bool {
        true
    }

    open spec fn full_control(&self) -> bool {
        false
    }

    open spec fn ready(&self, lower: int, upper: int, first_slot: int, last_slot: int, number: int) -> bool {
        true
    }

    open spec fn chosen(&self, lower: int, upper: int, first_slot: int, last_slot: int, number: int) -> int {
        first_slot
    }

    fn want_full_control(&self) -> (b: bool) {
        false
    }

    fn can_choose(&self, lower: i32, upper: i32, first_slot: usize, last_slot: usize, number: i32) -> (b: bool) {
        true
    }

    fn choose_slot(
        &self,
        lower: i32,
        upper: i32,
        first_slot: usize,
        last_slot: usize,
        number: i32,
        current_board: &Vec<Option<i32>>,
    ) -> (slot: usize) {
        first_slot
    }
}

/// Always takes the last slot of the gap.
pub struct LastAvailableStrategy;

impl Strategy for LastAvailableStrategy {
    open spec fn wf(&self) -> bool {
        true
    }

    open spec fn full_control(&self) -> bool {
        false
    }

    open spec fn ready(&self, lower: int, upper: int, first_slot: int, last_slot: int, number: int) -> bool {
        true
    }

    open spec fn chosen(&self, lower: int, upper: int, first_slot: int, last_slot: int, number: int) -> int {
        last_slot
    }

    fn want_full_control(&self) -> (b: bool) {
        false
    }

    fn can_choose(&self, lower: i32, upper: i32, first_slot: usize, last_slot: usize, number: i32) -> (b: bool) {
        true
    }

    fn choose_slot(
        &self,
        lower: i32,
        upper: i32,
        first_slot: usize,
        last_slot: usize,
        number: i32,
        current_board: &Vec<Option<i32>>,
    ) -> (slot: usize) {
        last_slot
    }
}

/// Always takes the midpoint slot of the gap.
pub struct MiddleStrategy;

impl Strategy for MiddleStrategy {
    open spec fn wf(&self) -> bool {
        true
    }

    open spec fn full_control(&self) -> bool {
        false
    }

    open spec fn ready(&self, lower: int, upper: int, first_slot: int, last_slot: int, number: int) -> bool {
        true
    }

    open spec fn chosen(&self, lower: int, upper: int, first_slot: int, last_slot: int, number: int) -> int {
        first_slot + (last_slot - first_slot) / 2
    }

    fn want_full_control(&self) -> (b: bool) {
        false
    }

    fn can_choose(&self, lower: i32, upper: i32, first_slot: usize, last_slot: usize, number: i32) -> (b: bool) {
        true
    }

    fn choose_slot(
        &self,
        lower: i32,
        upper: i32,
        first_slot: usize,
        last_slot: usize,
        number: i32,
        current_board: &Vec<Option<i32>>,
    ) -> (slot: usize) {
        first_slot + (last_slot - first_slot) / 2
    }
}

/// The slot `OptimalWinStrategy` picks: the open interval `(lower, upper)` is
/// split into as many equal buckets as the gap has slots, and the number's
/// bucket (clamped to the gap) is taken.
pub open spec fn optimal_win_choice(lower: int, upper: int, first_slot: int, last_slot: int, number: int) -> int {
    let n = last_slot - first_slot + 1;
    let k = ((number - lower) * n) / (upper - lower);
    first_slot + (if k <= n - 1 { k } else { n - 1 })
}

/// Maps the number proportionally onto the gap: the slot whose equal-width
/// bucket of the numeric range contains the number.
pub struct OptimalWinStrategy;

impl Strategy for OptimalWinStrategy {
    open spec fn wf(&self) -> bool {
        true
    }

    open spec fn full_control(&self) -> bool {
        false
    }

    open spec fn ready(&self, lower: int, upper: int, first_slot: int, last_slot: int, number: int) -> bool {
        true
    }

    open spec fn chosen(&self, lower: int, upper: int, first_slot: int, last_slot: int, number: int) -> int {
        optimal_win_choice(lower, upper, first_slot, last_slot, number)
    }

    fn want_full_control(&self) -> (b: bool) {
        false
    }

    fn can_choose(&self, lower: i32, upper: i32, first_slot: usize, last_slot: usize, number: i32) -> (b: bool) {
        true
    }

    fn choose_slot(
        &self,
        lower: i32,
        upper: i32,
        first_slot: usize,
        last_slot: usize,
        number: i32,
        current_board: &Vec<Option<i32>>,
    ) -> (slot: usize) {
        let num_slots: usize = last_slot - first_slot + 1;
        let a: usize = (number - lower) as usize;
        let d: usize = (upper - lower) as usize;
        proof {
            assert(a * num_slots <= 20020) by (nonlinear_arith)
                requires
                    a <= 1001,
                    num_slots <= 20,
            ;
        }
        let k: usize = (a * num_slots) / d;
        let k: usize = if k <= num_slots - 1 {
            k
        } else {
            num_slots - 1
        };
        first_slot + k
    }
}

/// The slot `CautiousOptimalStrategy` picks. With `n` slots over a range of
/// width `d = upper - lower`, a margin of `eps` per cent of the nominal
/// per-slot width `d / n` is reserved at each end: a number within the margin
/// of a bound forces the slot at that end, and the rest of the range is
/// bucketed proportionally into the `n - 2` interior slots. All comparisons
/// are exact: the margin test `a < (eps / 100) * (d / n)` is taken over the
/// integers as `100 * n * a < eps * d`.
pub open spec fn cautious_choice(eps: int, lower: int, upper: int, first_slot: int, last_slot: int, number: int) -> int {
    let n = last_slot - first_slot + 1;
    let d = upper - lower;
    let a = number - lower;
    if 100 * n * a < eps * d {
        first_slot
    } else if 100 * n * (d - a) < eps * d {
        last_slot
    } else {
        let inner = ((100 * n * a - eps * d) * (n - 2)) / (d * (100 * n - 2 * eps));
        first_slot + 1 + (if inner <= n - 3 { inner } else { n - 3 })
    }
}

/// Proportional mapping with a reserved epsilon margin at each end of the
/// range: numbers close to a bound take the outermost slot on that side.
pub struct CautiousOptimalStrategy {
    epsilon_percent: usize,
}

impl CautiousOptimalStrategy {
    pub fn new(epsilon_percent: usize) -> (s: Self)
        requires
            epsilon_percent <= 100,
        ensures
            s.wf(),
            s.epsilon() == epsilon_percent,
    {
        CautiousOptimalStrategy { epsilon_percent }
    }

    /// The configured margin, in per cent of the nominal per-slot width.
    pub closed spec fn epsilon(&self) -> int {
        self.epsilon_percent as int
    }
}

impl Strategy for CautiousOptimalStrategy {
    open spec fn wf(&self) -> bool {
        self.epsilon() <= 100
    }

    open spec fn full_control(&self) -> bool {
        false
    }

    open spec fn ready(&self, lower: int, upper: int, first_slot: int, last_slot: int, number: int) -> bool {
        true
    }

    open spec fn chosen(&self, lower: int, upper: int, first_slot: int, last_slot: int, number: int) -> int {
        cautious_choice(self.epsilon(), lower, upper, first_slot, last_slot, number)
    }

    fn want_full_control(&self) -> (b: bool) {
        false
    }

    fn can_choose(&self, lower: i32, upper: i32, first_slot: usize, last_slot: usize, number: i32) -> (b: bool) {
        true
    }

    fn choose_slot(
        &self,
        lower: i32,
        upper: i32,
        first_slot: usize,
        last_slot: usize,
        number: i32,
        current_board: &Vec<Option<i32>>,
    ) -> (slot: usize) {
        let n: usize = last_slot - first_slot + 1;
        let d: usize = (upper - lower) as usize;
        let a: usize = (number - lower) as usize;
        let eps: usize = self.epsilon_percent;
        proof {
            assert(100 * n * a <= 2002000) by (nonlinear_arith)
                requires
                    n <= 20,
                    a <= 1001,
            ;
            assert(100 * n * (d - a) <= 2002000) by (nonlinear_arith)
                requires
                    n <= 20,
                    d - a <= 1001,
            ;
            assert(eps * d <= 100100) by (nonlinear_arith)
                requires
                    eps <= 100,
                    d <= 1001,
            ;
        }
        if 100 * n * a < eps * d {
            first_slot
        } else if 100 * n * (d - a) < eps * d {
            last_slot
        } else {
            proof {
                assert((100 * n * a - eps * d) * (n - 2) <= 36036000) by (nonlinear_arith)
                    requires
                        eps * d <= 100 * n * a,
                        100 * n * a <= 2002000,
                        n - 2 <= 18,
                ;
                assert(d * (100 * n - 2 * eps) >= 100) by (nonlinear_arith)
                    requires
                        d >= 1,
                        100 * n >= 300,
                        eps <= 100,
                ;
                assert(d * (100 * n - 2 * eps) <= 2002000) by (nonlinear_arith)
                    requires
                        d <= 1001,
                        eps >= 0,
                        100 * n <= 2000,
                ;
            }
            let inner: usize = ((100 * n * a - eps * d) * (n - 2)) / (d * (100 * n - 2 * eps));
            let inner: usize = if inner <= n - 3 {
                inner
            } else {
                n - 3
            };
            first_slot + 1 + inner
        }
    }
}

/// The slot `BinomialStrategy` picks. With `m = last_slot - first_slot`
/// numbers still to come for the gap, the drawn number's most likely rank
/// under the continuous model is the first peak of the binomial mass
/// `C(m, k) · a^k · b^(m-k)`, where `a = number - lower` and
/// `b = upper - number`; the mass is unimodal, so the peak is found by the
/// exact adjacent-ratio test.
pub open spec fn binomial_choice(lower: int, upper: int, first_slot: int, last_slot: int, number: int) -> int {
    first_slot + bin_peak(last_slot - first_slot, number - lower, upper - number, 0)
}

/// Treats the gap's future numbers as independent uniform draws and places
/// the drawn number at its maximum-likelihood rank among them.
pub struct BinomialStrategy;

impl Strategy for BinomialStrategy {
    open spec fn wf(&self) -> bool {
        true
    }

    open spec fn full_control(&self) -> bool {
        false
    }

    open spec fn ready(&self, lower: int, upper: int, first_slot: int, last_slot: int, number: int) -> bool {
        true
    }

    open spec fn chosen(&self, lower: int, upper: int, first_slot: int, last_slot: int, number: int) -> int {
        binomial_choice(lower, upper, first_slot, last_slot, number)
    }

    fn want_full_control(&self) -> (b: bool) {
        false
    }

    fn can_choose(&self, lower: i32, upper: i32, first_slot: usize, last_slot: usize, number: i32) -> (b: bool) {
        true
    }

    fn choose_slot(
        &self,
        lower: i32,
        upper: i32,
        first_slot: usize,
        last_slot: usize,
        number: i32,
        current_board: &Vec<Option<i32>>,
    ) -> (slot: usize) {
        let m: usize = last_slot - first_slot;
        let a: usize = (number - lower) as usize;
        let b: usize = (upper - number) as usize;
        let ghost gm = m as int;
        let ghost ga = a as int;
        let ghost gb = b as int;
        let mut k: usize = 0;
        loop
            invariant
                k <= m,
                m <= 19,
                a <= 1001,
                b <= 1001,
                gm == m as int && ga == a as int && gb == b as int,
                bin_peak(gm, ga, gb, k as int) == bin_peak(gm, ga, gb, 0),
            ensures
                k <= m,
                k as int == bin_peak(gm, ga, gb, 0),
            decreases m - k,
        {
            if k >= m {
                break;
            }
            proof {
                assert((m - k) * a <= 20020) by (nonlinear_arith)
                    requires
                        m - k <= 20,
                        a <= 1001,
                ;
                assert((k + 1) * b <= 20020) by (nonlinear_arith)
                    requires
                        k + 1 <= 20,
                        b <= 1001,
                ;
            }
            let rise: usize = (m - k) * a;
            let fall: usize = (k + 1) * b;
            if rise <= fall {
                break;
            }
            k = k + 1;
        }
        first_slot + k
    }
}

/// The slot `BinomialQuantizedStrategy` picks. With `l` integers left
/// strictly between `lower` and `number`, `u` strictly between `number` and
/// `upper`, and `m = last_slot - first_slot` slots still to fill, the drawn
/// number's most likely rank is the first peak of the hypergeometric mass
/// `C(l, k) · C(u, m-k)` over its support `[max(0, m-u), min(l, m)]`; when
/// fewer than `m` integers remain the mass is zero everywhere and the first
/// slot is taken.
pub open spec fn quantized_choice(lower: int, upper: int, first_slot: int, last_slot: int, number: int) -> int {
    first_slot + quantized_rank(number - lower - 1, upper - number - 1, last_slot - first_slot)
}

/// Places the drawn number at its maximum-likelihood rank among the integers
/// that can still fall in the gap, counting them exactly.
pub struct BinomialQuantizedStrategy;

impl Strategy for BinomialQuantizedStrategy {
    open spec fn wf(&self) -> bool {
        true
    }

    open spec fn full_control(&self) -> bool {
        false
    }

    open spec fn ready(&self, lower: int, upper: int, first_slot: int, last_slot: int, number: int) -> bool {
        true
    }

    open spec fn chosen(&self, lower: int, upper: int, first_slot: int, last_slot: int, number: int) -> int {
        quantized_choice(lower, upper, first_slot, last_slot, number)
    }

    fn want_full_control(&self) -> (b: bool) {
        false
    }

    fn can_choose(&self, lower: i32, upper: i32, first_slot: usize, last_slot: usize, number: i32) -> (b: bool) {
        true
    }

    fn choose_slot(
        &self,
        lower: i32,
        upper: i32,
        first_slot: usize,
        last_slot: usize,
        number: i32,
        current_board: &Vec<Option<i32>>,
    ) -> (slot: usize) {
        let m: usize = last_slot - first_slot;
        let l: usize = (number - lower - 1) as usize;
        let u: usize = (upper - number - 1) as usize;
        if l + u < m {
            return first_slot;
        }
        let hi: usize = if l < m {
            l
        } else {
            m
        };
        let ghost gm = m as int;
        let ghost gl = l as int;
        let ghost gu = u as int;
        let ghost ghi = hi as int;
        let mut k: usize = if m > u {
            m - u
        } else {
            0
        };
        loop
            invariant
                k <= hi,
                hi <= m,
                hi <= l,
                m <= 19,
                l <= 1001,
                u <= 1001,
                k + u >= m,
                gm == m as int && gl == l as int && gu == u as int && ghi == hi as int,
                hyp_peak(gl, gu, gm, k as int, ghi) == hyp_peak(
                    gl,
                    gu,
                    gm,
                    if gm > gu { gm - gu } else { 0 },
                    ghi,
                ),
            ensures
                k <= hi,
                k as int == hyp_peak(gl, gu, gm, if gm > gu { gm - gu } else { 0 }, ghi),
            decreases hi - k,
        {
            if k >= hi {
                break;
            }
            proof {
                assert((l - k) * (m - k) <= 20020) by (nonlinear_arith)
                    requires
                        0 <= l - k <= 1001,
                        0 <= m - k <= 20,
                ;
                assert((k + 1) * (u + k + 1 - m) <= 20 * 1022) by (nonlinear_arith)
                    requires
                        0 < k + 1 <= 20,
                        0 <= u + k + 1 - m <= 1022,
                ;
            }
            let rise: usize = (l - k) * (m - k);
            let fall: usize = (k + 1) * (u + k + 1 - m);
            if rise <= fall {
                break;
            }
            k = k + 1;
        }
        proof {
            lemma_hyp_peak_range(gl, gu, gm, if gm > gu { gm - gu } else { 0 }, ghi);
        }
        first_slot + k
    }
}

/// One record of lookup-table data: for gaps with `num_slots` slots and
/// `num_values` admissible integers, a drawn number whose 0-indexed offset in
/// the gap is at most `upper_bound` is placed `placement_index` slots after
/// the gap's first slot (the records for one key are consulted in ascending
/// `upper_bound` order).
#[derive(Debug, Clone, Copy, PartialEq, Eq, Structural)]
pub struct LookupRecord {
    pub num_slots: usize,
    pub num_values: usize,
    pub placement_index: usize,
    pub upper_bound: i32,
}

struct Candidate {
    upper_bound: i32,
    placement_index: usize,
}

struct LookupGroup {
    num_slots: usize,
    num_values: usize,
    entries: Vec<Candidate>,
}

/// A table entry as the contracts speak of it: threshold, then placement.
pub type LookupEntry = (int, int);

spec fn candidate_view(c: Candidate) -> LookupEntry {
    (c.upper_bound as int, c.placement_index as int)
}

spec fn entries_view(s: Seq<Candidate>) -> Seq<LookupEntry> {
    s.map(|i: int, c: Candidate| candidate_view(c))
}

spec fn group_key(g: LookupGroup) -> (int, int) {
    (g.num_slots as int, g.num_values as int)
}

spec fn group_wf(g: LookupGroup) -> bool {
    &&& g.entries@.len() > 0
    &&& forall|i: int|
        0 <= i < g.entries@.len() ==> g.entries@[i].placement_index < g.num_slots
    &&& entries_sorted(entries_view(g.entries@))
}

/// Thresholds ascend.
pub open spec fn entries_sorted(s: Seq<LookupEntry>) -> bool {
    forall|i: int, j: int| 0 <= i < j < s.len() ==> s[i].0 <= s[j].0
}

spec fn table_map_of(groups: Seq<LookupGroup>) -> Map<(int, int), Seq<LookupEntry>>
    decreases groups.len(),
{
    if groups.len() == 0 {
        Map::empty()
    } else {
        table_map_of(groups.drop_last()).insert(
            group_key(groups.last()),
            entries_view(groups.last().entries@),
        )
    }
}

spec fn groups_wf(groups: Seq<LookupGroup>) -> bool {
    &&& forall|i: int| 0 <= i < groups.len() ==> group_wf(#[trigger] groups[i])
    &&& forall|i: int, j: int|
        0 <= i < j < groups.len() ==> group_key(groups[i]) != group_key(groups[j])
}

/// `e` inserted into `s` after every entry whose threshold does not exceed
/// `e`'s: what a stable ascending sort leaves for an entry arriving last.
pub open spec fn insert_sorted(s: Seq<LookupEntry>, e: LookupEntry) -> Seq<LookupEntry>
    decreases s.len(),
{
    if s.len() == 0 {
        seq![e]
    } else if s.last().0 <= e.0 {
        s.push(e)
    } else {
        insert_sorted(s.drop_last(), e).push(s.last())
    }
}

/// One record added to a table: appended to its key's run, then moved left
/// past every entry with a strictly larger threshold.
pub open spec fn table_insert(
    t: Map<(int, int), Seq<LookupEntry>>,
    r: LookupRecord,
) -> Map<(int, int), Seq<LookupEntry>> {
    let key = (r.num_slots as int, r.num_values as int);
    let e = (r.upper_bound as int, r.placement_index as int);
    if t.contains_key(key) {
        t.insert(key, insert_sorted(t[key], e))
    } else {
        t.insert(key, seq![e])
    }
}

/// The table the given records build: each key maps to its records' pairs of
/// threshold and placement, ascending by threshold, ties in input order.
pub open spec fn build_table(records: Seq<LookupRecord>) -> Map<(int, int), Seq<LookupEntry>>
    decreases records.len(),
{
    if records.len() == 0 {
        Map::empty()
    } else {
        table_insert(build_table(records.drop_last()), records.last())
    }
}

/// The index of the first entry at or after `i` whose threshold reaches
/// `offset`, or the last index when none does.
pub open spec fn lookup_scan(entries: Seq<LookupEntry>, offset: int, i: int) -> int
    decreases entries.len() - i,
{
    if i >= entries.len() - 1 {
        entries.len() - 1
    } else if entries[i].0 >= offset {
        i
    } else {
        lookup_scan(entries, offset, i + 1)
    }
}

/// The slot `LookupTableStrategy` picks: the gap's geometry selects the run
/// of entries for key `(slot count, value count)`; the number's 0-indexed
/// offset `number - lower - 1` among the gap's admissible integers selects
/// the first entry whose threshold reaches it (or the last entry), and that
/// entry's placement counts from the gap's first slot.
pub open spec fn lookup_choice(
    t: Map<(int, int), Seq<LookupEntry>>,
    lower: int,
    upper: int,
    first_slot: int,
    last_slot: int,
    number: int,
) -> int {
    let entries = t[(last_slot - first_slot + 1, upper - lower - 1)];
    first_slot + entries[lookup_scan(entries, number - lower - 1, 0)].1
}

/// Where `insert_sorted` puts an entry: at the index whose successors all
/// carry strictly larger thresholds while its predecessor does not.
proof fn lemma_insert_sorted_at(s: Seq<LookupEntry>, e: LookupEntry, p: int)
    requires
        entries_sorted(s),
        0 <= p <= s.len(),
        forall|j: int| p <= j < s.len() ==> s[j].0 > e.0,
        p > 0 ==> s[p - 1].0 <= e.0,
    ensures
        insert_sorted(s, e) =~= s.subrange(0, p).push(e) + s.subrange(p, s.len() as int),
        entries_sorted(insert_sorted(s, e)),
    decreases s.len(),
{
    if p == s.len() {
        if s.len() == 0 {
        } else {
            assert(s.last().0 <= e.0);
        }
    } else {
        assert(s.last().0 > e.0);
        let d = s.drop_last();
        assert(entries_sorted(d));
        lemma_insert_sorted_at(d, e, p);
        assert(insert_sorted(s, e) =~= insert_sorted(d, e).push(s.last()));
    }
    let r = s.subrange(0, p).push(e) + s.subrange(p, s.len() as int);
    assert forall|i: int, j: int| 0 <= i < j < r.len() implies r[i].0 <= r[j].0 by {
        if i < p {
            assert(r[i] == s[i]);
        } else if i == p {
            assert(r[i] == e);
        } else {
            assert(r[i] == s[i - 1]);
        }
        if j < p {
            assert(r[j] == s[j]);
        } else if j == p {
            assert(r[j] == e);
        } else {
            assert(r[j] == s[j - 1]);
        }
        if i < p && j == p && p > 0 {
            assert(s[i].0 <= s[p - 1].0);
        }
    }
}

proof fn lemma_table_map_contains(groups: Seq<LookupGroup>, key: (int, int))
    ensures
        table_map_of(groups).contains_key(key) <==> exists|i: int|
            0 <= i < groups.len() && group_key(#[trigger] groups[i]) == key,
    decreases groups.len(),
{
    if groups.len() > 0 {
        lemma_table_map_contains(groups.drop_last(), key);
        if group_key(groups.last()) == key {
            assert(group_key(groups[groups.len() - 1]) == key);
        } else {
            if table_map_of(groups).contains_key(key) {
                let i = choose|i: int|
                    0 <= i < groups.drop_last().len() && group_key(
                        #[trigger] groups.drop_last()[i],
                    ) == key;
                assert(group_key(groups[i]) == key);
            }
            if exists|i: int| 0 <= i < groups.len() && group_key(#[trigger] groups[i]) == key {
                let i = choose|i: int|
                    0 <= i < groups.len() && group_key(#[trigger] groups[i]) == key;
                assert(group_key(groups.drop_last()[i]) == key);
            }
        }
    }
}

proof fn lemma_table_map_lookup(groups: Seq<LookupGroup>, i: int)
    requires
        0 <= i < groups.len(),
        forall|p: int, q: int|
            0 <= p < q < groups.len() ==> group_key(groups[p]) != group_key(groups[q]),
    ensures
        table_map_of(groups).contains_key(group_key(groups[i])),
        table_map_of(groups)[group_key(groups[i])] == entries_view(groups[i].entries@),
    decreases groups.len(),
{
    if i == groups.len() - 1 {
    } else {
        lemma_table_map_lookup(groups.drop_last(), i);
        assert(groups.drop_last()[i] == groups[i]);
        assert(group_key(groups.last()) != group_key(groups[i]));
    }
}

proof fn lemma_table_map_update(groups: Seq<LookupGroup>, i: int, g2: LookupGroup)
    requires
        0 <= i < groups.len(),
        forall|p: int, q: int|
            0 <= p < q < groups.len() ==> group_key(groups[p]) != group_key(groups[q]),
        group_key(g2) == group_key(groups[i]),
    ensures
        table_map_of(groups.update(i, g2)) =~= table_map_of(groups).insert(
            group_key(g2),
            entries_view(g2.entries@),
        ),
    decreases groups.len(),
{
    let u = groups.update(i, g2);
    if i == groups.len() - 1 {
        assert(u.drop_last() =~= groups.drop_last());
        assert(u.last() == g2);
    } else {
        lemma_table_map_update(groups.drop_last(), i, g2);
        assert(u.drop_last() =~= groups.drop_last().update(i, g2));
        assert(u.last() == groups.last());
        assert(group_key(groups.last()) != group_key(g2));
    }
}

/// A strategy driven by precomputed data: the gap's slot count and admissible
/// value count select a run of threshold/placement records, and the number's
/// offset in the gap selects the record whose placement is used. Declares
/// full control, so the engine hands it every gap undiminished.
pub struct LookupTableStrategy {
    table: Vec<LookupGroup>,
}

impl LookupTableStrategy {
    /// The table as a map from `(slot count, value count)` to the run of
    /// `(threshold, placement)` entries, ascending by threshold.
    pub closed spec fn table_map(&self) -> Map<(int, int), Seq<LookupEntry>> {
        table_map_of(self.table@)
    }

    /// Every run is non-empty and ascending, every placement fits its key's
    /// slot count, and no key repeats.
    pub closed spec fn table_wf(&self) -> bool {
        groups_wf(self.table@)
    }

    /// Builds the strategy from parsed records: records sharing a key are
    /// grouped, and each group is ordered by ascending threshold (ties keep
    /// their input order).
    pub fn new(records: &Vec<LookupRecord>) -> (s: Self)
        requires
            forall|i: int|
                0 <= i < records@.len() ==> (#[trigger] records@[i]).placement_index
                    < records@[i].num_slots,
        ensures
            s.table_wf(),
            s.table_map() == build_table(records@),
    {
        let mut table: Vec<LookupGroup> = Vec::new();
        let mut r: usize = 0;
        while r < records.len()
            invariant
                r <= records.len(),
                forall|i: int|
                    0 <= i < records@.len() ==> (#[trigger] records@[i]).placement_index
                        < records@[i].num_slots,
                groups_wf(table@),
                table_map_of(table@) == build_table(records@.take(r as int)),
            decreases records.len() - r,
        {
            let rec = records[r];
            let ghost key = (rec.num_slots as int, rec.num_values as int);
            let ghost e = (rec.upper_bound as int, rec.placement_index as int);
            proof {
                assert(records@.take(r as int + 1).drop_last() =~= records@.take(r as int));
                assert(records@.take(r as int + 1).last() == records@[r as int]);
            }
            // look for this record's group
            let n = table.len();
            let mut gi: usize = 0;
            loop
                invariant
                    gi <= n,
                    n == table.len(),
                    forall|j: int| 0 <= j < gi ==> group_key(#[trigger] table@[j]) != key,
                    key == (rec.num_slots as int, rec.num_values as int),
                ensures
                    gi <= n,
                    gi < n ==> group_key(table@[gi as int]) == key,
                    forall|j: int| 0 <= j < gi ==> group_key(#[trigger] table@[j]) != key,
                decreases n - gi,
            {
                if gi >= n {
                    break ;
                }
                if table[gi].num_slots == rec.num_slots && table[gi].num_values
                    == rec.num_values {
                    break ;
                }
                gi = gi + 1;
            }
            if gi < n {
                // existing group: slide the record in at its threshold rank
                let ghost t0 = table@;
                let mut g = table.remove(gi);
                let ghost g0 = g;
                let m = g.entries.len();
                let mut p: usize = m;
                while p > 0 && g.entries[p - 1].upper_bound > rec.upper_bound
                    invariant
                        p <= m,
                        g == g0,
                        m == g.entries@.len(),
                        forall|j: int|
                            p <= j < m ==> (#[trigger] g.entries@[j]).upper_bound
                                > rec.upper_bound,
                    decreases p,
                {
                    p = p - 1;
                }
                proof {
                    assert(group_wf(g0));
                    assert forall|j: int| p <= j < m implies entries_view(g0.entries@)[j].0
                        > e.0 by {
                        assert(entries_view(g0.entries@)[j] == candidate_view(g0.entries@[j]));
                    }
                    if p > 0 {
                        assert(entries_view(g0.entries@)[p - 1] == candidate_view(
                            g0.entries@[p - 1],
                        ));
                    }
                    lemma_insert_sorted_at(entries_view(g0.entries@), e, p as int);
                }
                let c = Candidate {
                    upper_bound: rec.upper_bound,
                    placement_index: rec.placement_index,
                };
                g.entries.insert(p, c);
                proof {
                    assert(g.entries@ == g0.entries@.insert(p as int, c));
                    assert(entries_view(g.entries@) =~= insert_sorted(
                        entries_view(g0.entries@),
                        e,
                    )) by {
                        assert(g0.entries@.insert(p as int, c) =~= g0.entries@.subrange(
                            0,
                            p as int,
                        ).push(c) + g0.entries@.subrange(p as int, m as int));
                    }
                    assert(group_wf(g)) by {
                        assert(entries_sorted(entries_view(g.entries@)));
                        assert forall|j: int|
                            0 <= j < g.entries@.len() implies (#[trigger] g.entries@[j]).placement_index
                            < g.num_slots by {
                            let s0 = g0.entries@;
                            assert(g.entries@ == s0.insert(p as int, c));
                        }
                        assert forall|i2: int, j2: int|
                            0 <= i2 < j2 < entries_view(g.entries@).len() implies entries_view(
                            g.entries@,
                        )[i2].0 <= entries_view(g.entries@)[j2].0 by {}
                    }
                }
                table.insert(gi, g);
                proof {
                    assert(table@ =~= t0.update(gi as int, g)) by {
                        assert(table@ =~= t0.remove(gi as int).insert(gi as int, g));
                    }
                    assert(group_key(g) == group_key(t0[gi as int]));
                    lemma_table_map_lookup(t0, gi as int);
                    lemma_table_map_update(t0, gi as int, g);
                    assert(groups_wf(table@)) by {
                        assert(forall|j: int|
                            0 <= j < table@.len() && j != gi ==> table@[j] == t0[j]);
                    }
                    assert(table_map_of(table@) =~= table_insert(
                        build_table(records@.take(r as int)),
                        rec,
                    ));
                    assert(table_map_of(table@) == build_table(records@.take(r as int + 1)));
                }
            } else {
                let ghost t0 = table@;
                let g = LookupGroup {
                    num_slots: rec.num_slots,
                    num_values: rec.num_values,
                    entries: vec![
                        Candidate {
                            upper_bound: rec.upper_bound,
                            placement_index: rec.placement_index,
                        },
                    ],
                };
                proof {
                    assert(group_wf(g)) by {
                        assert(g.entries@.len() == 1);
                        assert(g.entries@[0].placement_index == rec.placement_index);
                        assert(rec == records@[r as int]);
                    }
                }
                table.push(g);
                proof {
                    assert(table@.drop_last() =~= t0);
                    assert(table@.last() == g);
                    assert(group_key(g) == key);
                    lemma_table_map_contains(t0, key);
                    assert(!build_table(records@.take(r as int)).contains_key(key));
                    assert(entries_view(g.entries@) =~= seq![e]);
                    assert(groups_wf(table@)) by {
                        assert(forall|j: int| 0 <= j < t0.len() ==> table@[j] == t0[j]);
                    }
                    assert(table_map_of(table@) =~= table_insert(
                        build_table(records@.take(r as int)),
                        rec,
                    ));
                    assert(table_map_of(table@) == build_table(records@.take(r as int + 1)));
                }
            }
            r = r + 1;
        }
        proof {
            assert(records@.take(records@.len() as int) =~= records@);
        }
        LookupTableStrategy { table }
    }

    /// The position of the group for this key, if the table has one.
    fn find_group(&self, num_slots: usize, num_values: usize) -> (r: Option<usize>)
        requires
            self.table_wf(),
        ensures
            match r {
                Some(gi) => gi < self.table@.len() && group_key(self.table@[gi as int]) == (
                    num_slots as int,
                    num_values as int,
                ) && self.table_map().contains_key((num_slots as int, num_values as int))
                    && self.table_map()[(num_slots as int, num_values as int)] == entries_view(
                    self.table@[gi as int].entries@,
                ),
                None => !self.table_map().contains_key((num_slots as int, num_values as int)),
            },
    {
        let ghost key = (num_slots as int, num_values as int);
        let n = self.table.len();
        let mut gi: usize = 0;
        loop
            invariant
                gi <= n,
                n == self.table@.len(),
                self.table_wf(),
                key == (num_slots as int, num_values as int),
                forall|j: int| 0 <= j < gi ==> group_key(#[trigger] self.table@[j]) != key,
            ensures
                gi <= n,
                gi < n ==> group_key(self.table@[gi as int]) == key,
                gi == n ==> forall|j: int|
                    0 <= j < n ==> group_key(#[trigger] self.table@[j]) != key,
            decreases n - gi,
        {
            if gi >= n {
                break ;
            }
            if self.table[gi].num_slots == num_slots && self.table[gi].num_values == num_values {
                break ;
            }
            gi = gi + 1;
        }
        if gi < n {
            proof {
                lemma_table_map_lookup(self.table@, gi as int);
            }
            Some(gi)
        } else {
            proof {
                lemma_table_map_contains(self.table@, key);
            }
            None
        }
    }
}

impl Strategy for LookupTableStrategy {
    open spec fn wf(&self) -> bool {
        self.table_wf()
    }

    open spec fn full_control(&self) -> bool {
        true
    }

    open spec fn ready(&self, lower: int, upper: int, first_slot: int, last_slot: int, number: int) -> bool {
        self.table_map().contains_key((last_slot - first_slot + 1, upper - lower - 1))
    }

    open spec fn chosen(&self, lower: int, upper: int, first_slot: int, last_slot: int, number: int) -> int {
        lookup_choice(self.table_map(), lower, upper, first_slot, last_slot, number)
    }

    fn want_full_control(&self) -> (b: bool) {
        true
    }

    fn can_choose(&self, lower: i32, upper: i32, first_slot: usize, last_slot: usize, number: i32) -> (b: bool) {
        let num_slots: usize = last_slot - first_slot + 1;
        let num_values: usize = (upper - lower - 1) as usize;
        let r = self.find_group(num_slots, num_values);
        r.is_some()
    }

    fn choose_slot(
        &self,
        lower: i32,
        upper: i32,
        first_slot: usize,
        last_slot: usize,
        number: i32,
        current_board: &Vec<Option<i32>>,
    ) -> (slot: usize) {
        let num_slots: usize = last_slot - first_slot + 1;
        let num_values: usize = (upper - lower - 1) as usize;
        let gi = match self.find_group(num_slots, num_values) {
            Some(gi) => gi,
            None => {
                return vstd::pervasive::unreached();
            },
        };
        let offset: i32 = number - lower - 1;
        let m = self.table[gi].entries.len();
        let ghost ev = entries_view(self.table@[gi as int].entries@);
        let mut bi: usize = 0;
        loop
            invariant
                m == self.table@[gi as int].entries@.len(),
                gi < self.table@.len(),
                self.table_wf(),
                group_wf(self.table@[gi as int]),
                ev == entries_view(self.table@[gi as int].entries@),
                m >= 1,
                bi < m,
                lookup_scan(ev, offset as int, bi as int) == lookup_scan(ev, offset as int, 0),
            ensures
                bi < m,
                bi as int == lookup_scan(ev, offset as int, 0),
            decreases m - bi,
        {
            if bi >= m - 1 {
                break ;
            }
            if self.table[gi].entries[bi].upper_bound >= offset {
                break ;
            }
            bi = bi + 1;
        }
        let placement = self.table[gi].entries[bi].placement_index;
        proof {
            assert(self.table@[gi as int].entries@[bi as int].placement_index < self.table@[gi
                as int].num_slots);
        }
        first_slot + placement
    }
}

/// One of the library's placement policies, selected at configuration time;
/// the engine runs a batch of these over shared draws.
pub enum StrategyKind {
    FirstAvailable(FirstAvailableStrategy),
    LastAvailable(LastAvailableStrategy),
    Middle(MiddleStrategy),
    OptimalWin(OptimalWinStrategy),
    CautiousOptimal(CautiousOptimalStrategy),
    Binomial(BinomialStrategy),
    BinomialQuantized(BinomialQuantizedStrategy),
    LookupTable(LookupTableStrategy),
}

impl Strategy for StrategyKind {
    open spec fn wf(&self) -> bool {
        match self {
            StrategyKind::FirstAvailable(s) => s.wf(),
            StrategyKind::LastAvailable(s) => s.wf(),
            StrategyKind::Middle(s) => s.wf(),
            StrategyKind::OptimalWin(s) => s.wf(),
            StrategyKind::CautiousOptimal(s) => s.wf(),
            StrategyKind::Binomial(s) => s.wf(),
            StrategyKind::BinomialQuantized(s) => s.wf(),
            StrategyKind::LookupTable(s) => s.wf(),
        }
    }

    open spec fn full_control(&self) -> bool {
        match self {
            StrategyKind::FirstAvailable(s) => s.full_control(),
            StrategyKind::LastAvailable(s) => s.full_control(),
            StrategyKind::Middle(s) => s.full_control(),
            StrategyKind::OptimalWin(s) => s.full_control(),
            StrategyKind::CautiousOptimal(s) => s.full_control(),
            StrategyKind::Binomial(s) => s.full_control(),
            StrategyKind::BinomialQuantized(s) => s.full_control(),
            StrategyKind::LookupTable(s) => s.full_control(),
        }
    }

    open spec fn ready(&self, lower: int, upper: int, first_slot: int, last_slot: int, number: int) -> bool {
        match self {
            StrategyKind::FirstAvailable(s) => s.ready(lower, upper, first_slot, last_slot, number),
            StrategyKind::LastAvailable(s) => s.ready(lower, upper, first_slot, last_slot, number),
            StrategyKind::Middle(s) => s.ready(lower, upper, first_slot, last_slot, number),
            StrategyKind::OptimalWin(s) => s.ready(lower, upper, first_slot, last_slot, number),
            StrategyKind::CautiousOptimal(s) => s.ready(lower, upper, first_slot, last_slot, number),
            StrategyKind::Binomial(s) => s.ready(lower, upper, first_slot, last_slot, number),
            StrategyKind::BinomialQuantized(s) => s.ready(lower, upper, first_slot, last_slot, number),
            StrategyKind::LookupTable(s) => s.ready(lower, upper, first_slot, last_slot, number),
        }
    }

    open spec fn chosen(&self, lower: int, upper: int, first_slot: int, last_slot: int, number: int) -> int {
        match self {
            StrategyKind::FirstAvailable(s) => s.chosen(lower, upper, first_slot, last_slot, number),
            StrategyKind::LastAvailable(s) => s.chosen(lower, upper, first_slot, last_slot, number),
            StrategyKind::Middle(s) => s.chosen(lower, upper, first_slot, last_slot, number),
            StrategyKind::OptimalWin(s) => s.chosen(lower, upper, first_slot, last_slot, number),
            StrategyKind::CautiousOptimal(s) => s.chosen(lower, upper, first_slot, last_slot, number),
            StrategyKind::Binomial(s) => s.chosen(lower, upper, first_slot, last_slot, number),
            StrategyKind::BinomialQuantized(s) => s.chosen(lower, upper, first_slot, last_slot, number),
            StrategyKind::LookupTable(s) => s.chosen(lower, upper, first_slot, last_slot, number),
        }
    }

    fn want_full_control(&self) -> (b: bool) {
        match self {
            StrategyKind::FirstAvailable(s) => s.want_full_control(),
            StrategyKind::LastAvailable(s) => s.want_full_control(),
            StrategyKind::Middle(s) => s.want_full_control(),
            StrategyKind::OptimalWin(s) => s.want_full_control(),
            StrategyKind::CautiousOptimal(s) => s.want_full_control(),
            StrategyKind::Binomial(s) => s.want_full_control(),
            StrategyKind::BinomialQuantized(s) => s.want_full_control(),
            StrategyKind::LookupTable(s) => s.want_full_control(),
        }
    }

    fn can_choose(&self, lower: i32, upper: i32, first_slot: usize, last_slot: usize, number: i32) -> (b: bool) {
        match self {
            StrategyKind::FirstAvailable(s) => s.can_choose(lower, upper, first_slot, last_slot, number),
            StrategyKind::LastAvailable(s) => s.can_choose(lower, upper, first_slot, last_slot, number),
            StrategyKind::Middle(s) => s.can_choose(lower, upper, first_slot, last_slot, number),
            StrategyKind::OptimalWin(s) => s.can_choose(lower, upper, first_slot, last_slot, number),
            StrategyKind::CautiousOptimal(s) => s.can_choose(lower, upper, first_slot, last_slot, number),
            StrategyKind::Binomial(s) => s.can_choose(lower, upper, first_slot, last_slot, number),
            StrategyKind::BinomialQuantized(s) => s.can_choose(lower, upper, first_slot, last_slot, number),
            StrategyKind::LookupTable(s) => s.can_choose(lower, upper, first_slot, last_slot, number),
        }
    }

    fn choose_slot(
        &self,
        lower: i32,
        upper: i32,
        first_slot: usize,
        last_slot: usize,
        number: i32,
        current_board: &Vec<Option<i32>>,
    ) -> (slot: usize) {
        match self {
            StrategyKind::FirstAvailable(s) => s.choose_slot(
                lower,
                upper,
                first_slot,
                last_slot,
                number,
                current_board,
            ),
            StrategyKind::LastAvailable(s) => s.choose_slot(
                lower,
                upper,
                first_slot,
                last_slot,
                number,
                current_board,
            ),
            StrategyKind::Middle(s) => s.choose_slot(
                lower,
                upper,
                first_slot,
                last_slot,
                number,
                current_board,
            ),
            StrategyKind::OptimalWin(s) => s.choose_slot(
                lower,
                upper,
                first_slot,
                last_slot,
                number,
                current_board,
            ),
            StrategyKind::CautiousOptimal(s) => s.choose_slot(
                lower,
                upper,
                first_slot,
                last_slot,
                number,
                current_board,
            ),
            StrategyKind::Binomial(s) => s.choose_slot(
                lower,
                upper,
                first_slot,
                last_slot,
                number,
                current_board,
            ),
            StrategyKind::BinomialQuantized(s) => s.choose_slot(
                lower,
                upper,
                first_slot,
                last_slot,
                number,
                current_board,
            ),
            StrategyKind::LookupTable(s) => s.choose_slot(
                lower,
                upper,
                first_slot,
                last_slot,
                number,
                current_board,
            ),
        }
    }
}

} // verus!
