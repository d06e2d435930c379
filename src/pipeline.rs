use vstd::prelude::*;
use crate::error::{ProbeError, ResolveError};
use crate::text::{copy_bytes, dedup, lemma_dedup_contents, push_unique, views};
use crate::model::PcStatus;

verus! {

/// One hundred percent, in the unit of filter bounds: a millionth of a
/// percent.
pub const FULL_RANGE: u64 = 100_000_000;

/// An inclusive range of resident percentages, both bounds in millionths of
/// a percent.
#[derive(Debug, Clone, Copy, PartialEq, Eq, Structural)]
pub struct FilterRange {
    pub ge: u64,
    pub le: u64,
}

impl FilterRange {
    pub open spec fn wf(&self) -> bool {
        self.ge <= self.le && self.le <= FULL_RANGE
    }

    /// Checks the bounds: both within `[0, FULL_RANGE]`, and `ge <= le`.
    pub fn new(ge: i64, le: i64) -> (r: Result<FilterRange, ResolveError>)
        ensures
            (0 <= ge <= le <= FULL_RANGE) ==> r == Ok::<FilterRange, ResolveError>(
                FilterRange { ge: ge as u64, le: le as u64 },
            ),
            !(0 <= ge <= le <= FULL_RANGE) ==> r == Err::<FilterRange, ResolveError>(
                ResolveError::InvalidFilterRange,
            ),
            r is Ok ==> r->Ok_0.wf(),
    {
        if ge < 0 || le < 0 || ge > le || le as u64 > FULL_RANGE {
            Err(ResolveError::InvalidFilterRange)
        } else {
            Ok(FilterRange { ge: ge as u64, le: le as u64 })
        }
    }

    /// The range that admits every percentage.
    pub fn full() -> (r: FilterRange)
        ensures
            r.wf(),
            r.ge == 0,
            r.le == FULL_RANGE,
    {
        FilterRange { ge: 0, le: FULL_RANGE }
    }
}

/// Whether the resident percentage of `s` lies within `range`, both ends
/// included: `ge <= 100 * cached / pages <= le` in exact arithmetic, the
/// percentage of an empty file being zero.
pub open spec fn in_range(s: PcStatus, range: FilterRange) -> bool {
    &&& range.ge * s.percent_den() <= s.percent_num() * FULL_RANGE
    &&& s.percent_num() * FULL_RANGE <= range.le * s.percent_den()
}

/// The records of `stats` that lie within `range`, in their order.
pub open spec fn filtered(stats: Seq<PcStatus>, range: FilterRange) -> Seq<PcStatus>
    decreases stats.len(),
{
    if stats.len() == 0 {
        Seq::empty()
    } else if in_range(stats.last(), range) {
        filtered(stats.drop_last(), range).push(stats.last())
    } else {
        filtered(stats.drop_last(), range)
    }
}

/// Whether the resident percentage of `a` is at most that of `b`.
pub open spec fn percent_le(a: PcStatus, b: PcStatus) -> bool {
    a.percent_num() * b.percent_den() <= b.percent_num() * a.percent_den()
}

/// Whether `s` is in ascending order of resident percentage.
pub open spec fn sorted_ascending(s: Seq<PcStatus>) -> bool {
    forall|i: int| 0 <= i < s.len() - 1 ==> percent_le(#[trigger] s[i], s[i + 1])
}

/// Whether `s` is in descending order of resident percentage.
pub open spec fn sorted_descending(s: Seq<PcStatus>) -> bool {
    forall|i: int| 0 <= i < s.len() - 1 ==> percent_le(s[i + 1], #[trigger] s[i])
}

/// How the records are ordered before output.
#[derive(Debug, Clone, Copy, PartialEq, Eq, Structural)]
pub enum SortOrder {
    Unsorted,
    Ascending,
    Descending,
}

/// The order that a sort argument names: none for an empty argument,
/// ascending for `asc`, descending for anything else.
pub open spec fn sort_order_spec(arg: Seq<u8>) -> SortOrder {
    if arg.len() == 0 {
        SortOrder::Unsorted
    } else if arg == seq![97u8, 115u8, 99u8] {
        SortOrder::Ascending
    } else {
        SortOrder::Descending
    }
}

/// Reads a sort argument.
pub fn sort_order_of(arg: &[u8]) -> (r: SortOrder)
    ensures
        r == sort_order_spec(arg@),
{
    if arg.len() == 0 {
        SortOrder::Unsorted
    } else if arg.len() == 3 && arg[0] == 97 && arg[1] == 115 && arg[2] == 99 {
        assert(arg@ =~= seq![97u8, 115u8, 99u8]);
        SortOrder::Ascending
    } else {
        SortOrder::Descending
    }
}

fn product(a: usize, b: usize) -> (r: u128)
    ensures
        r == a * b,
{
    assert(a as int * b as int <= u128::MAX) by (nonlinear_arith)
        requires
            a <= u64::MAX,
            b <= u64::MAX,
    {
    }
    (a as u128) * (b as u128)
}

fn den(s: &PcStatus) -> (r: usize)
    ensures
        r == s.percent_den(),
{
    if s.pages == 0 {
        1
    } else {
        s.pages
    }
}

/// Whether the resident percentage of `a` is at most that of `b`.
pub fn percent_at_most(a: &PcStatus, b: &PcStatus) -> (r: bool)
    ensures
        r == percent_le(*a, *b),
{
    product(a.cached, den(b)) <= product(b.cached, den(a))
}

/// Whether the resident percentage of `s` lies within `range`.
pub fn stat_in_range(s: &PcStatus, range: &FilterRange) -> (r: bool)
    requires
        range.wf(),
    ensures
        r == in_range(*s, *range),
{
    let d = den(s) as u128;
    let n = s.cached as u128;
    assert(range.ge * d <= u128::MAX && range.le * d <= u128::MAX && n * FULL_RANGE <= u128::MAX)
        by (nonlinear_arith)
        requires
            range.ge <= FULL_RANGE,
            range.le <= FULL_RANGE,
            d <= u64::MAX,
            n <= u64::MAX,
    {
    }
    let scaled = n * (FULL_RANGE as u128);
    (range.ge as u128) * d <= scaled && scaled <= (range.le as u128) * d
}

/// Keeps the records whose resident percentage lies within `range`, both
/// ends included, in their order.
pub fn filter_stats(stats: Vec<PcStatus>, range: &FilterRange) -> (r: Vec<PcStatus>)
    requires
        range.wf(),
    ensures
        r@ == filtered(stats@, *range),
{
    let ghost orig = stats@;
    let mut rest = stats;
    let mut r: Vec<PcStatus> = Vec::new();
    let ghost mut k: int = 0;
    while rest.len() > 0
        invariant
            range.wf(),
            0 <= k <= orig.len(),
            rest@ == orig.skip(k),
            r@ == filtered(orig.take(k), *range),
        decreases rest@.len(),
    {
        let s = rest.remove(0);
        proof {
            assert(orig.take(k + 1).drop_last() =~= orig.take(k));
            assert(orig.take(k + 1).last() == s);
        }
        if stat_in_range(&s, range) {
            r.push(s);
        }
        proof {
            k = k + 1;
            assert(rest@ =~= orig.skip(k));
        }
    }
    assert(orig.take(k) =~= orig);
    r
}

/// Whether `y` stays before `x` when `x` is placed among sorted records:
/// ties keep the earlier record first.
fn precedes(y: &PcStatus, x: &PcStatus, ascending: bool) -> (r: bool)
    ensures
        ascending ==> r == percent_le(*y, *x),
        !ascending ==> r == percent_le(*x, *y),
{
    if ascending {
        percent_at_most(y, x)
    } else {
        percent_at_most(x, y)
    }
}

proof fn lemma_insert_multiset(s: Seq<PcStatus>, j: int, x: PcStatus)
    requires
        0 <= j <= s.len(),
    ensures
        s.insert(j, x).to_multiset() == s.to_multiset().insert(x),
{
    let a = s.subrange(0, j);
    let b = s.subrange(j, s.len() as int);
    assert(s =~= a + b);
    vstd::seq_lib::lemma_multiset_commutative(a, b);
    vstd::seq_lib::lemma_multiset_commutative(a.push(x), b);
    a.to_multiset_ensures();
    assert(s.insert(j, x) =~= a.push(x) + b);
}

/// Orders the records by resident percentage, as `order` says; records of
/// equal percentage keep their relative order.
pub fn sort_stats(stats: &mut Vec<PcStatus>, order: SortOrder)
    ensures
        final(stats)@.to_multiset() == old(stats)@.to_multiset(),
        order == SortOrder::Unsorted ==> final(stats)@ == old(stats)@,
        order == SortOrder::Ascending ==> sorted_ascending(final(stats)@),
        order == SortOrder::Descending ==> sorted_descending(final(stats)@),
{
    if order == SortOrder::Unsorted {
        return;
    }
    let ascending = order == SortOrder::Ascending;
    let mut rest: Vec<PcStatus> = Vec::new();
    core::mem::swap(stats, &mut rest);
    let ghost orig = rest@;
    let ghost mut k: int = 0;
    assert(stats@.to_multiset() =~= orig.take(0).to_multiset()) by {
        assert(orig.take(0) =~= Seq::<PcStatus>::empty());
        stats@.to_multiset_ensures();
        orig.take(0).to_multiset_ensures();
    }
    while rest.len() > 0
        invariant
            0 <= k <= orig.len(),
            rest@ == orig.skip(k),
            stats@.to_multiset() == orig.take(k).to_multiset(),
            ascending ==> sorted_ascending(stats@),
            !ascending ==> sorted_descending(stats@),
        decreases rest@.len(),
    {
        let x = rest.remove(0);
        let mut j: usize = 0;
        while j < stats.len() && precedes(&stats[j], &x, ascending)
            invariant
                j <= stats@.len(),
                ascending ==> forall|i: int| 0 <= i < j ==> percent_le(#[trigger] stats@[i], x),
                !ascending ==> forall|i: int| 0 <= i < j ==> percent_le(x, #[trigger] stats@[i]),
            decreases stats@.len() - j,
        {
            j = j + 1;
        }
        let ghost before = stats@;
        proof {
            lemma_insert_multiset(before, j as int, x);
            before.insert_ensures(j as int, x);
            assert(orig.take(k + 1) =~= orig.take(k).push(x));
            orig.take(k).to_multiset_ensures();
        }
        stats.insert(j, x);
        proof {
            k = k + 1;
            assert(rest@ =~= orig.skip(k));
            if ascending {
                assert forall|i: int| 0 <= i < stats@.len() - 1 implies percent_le(
                    #[trigger] stats@[i],
                    stats@[i + 1],
                ) by {
                    if i < j - 1 {
                        assert(stats@[i] == before[i] && stats@[i + 1] == before[i + 1]);
                    } else if i == j - 1 {
                        assert(stats@[i] == before[i]);
                    } else if i == j {
                        assert(stats@[i + 1] == before[i]);
                    } else {
                        assert(stats@[i] == before[i - 1] && stats@[i + 1] == before[i]);
                    }
                }
            } else {
                assert forall|i: int| 0 <= i < stats@.len() - 1 implies percent_le(
                    stats@[i + 1],
                    #[trigger] stats@[i],
                ) by {
                    if i < j - 1 {
                        assert(stats@[i] == before[i] && stats@[i + 1] == before[i + 1]);
                    } else if i == j - 1 {
                        assert(stats@[i] == before[i]);
                    } else if i == j {
                        assert(stats@[i + 1] == before[i]);
                    } else {
                        assert(stats@[i] == before[i - 1] && stats@[i + 1] == before[i]);
                    }
                }
            }
        }
    }
    assert(orig.take(k) =~= orig);
}

/// Filtering is idempotent: filtering an already filtered sequence with the
/// same bounds leaves it as it is.
pub proof fn lemma_filter_idempotent(stats: Seq<PcStatus>, range: FilterRange)
    ensures
        filtered(filtered(stats, range), range) == filtered(stats, range),
    decreases stats.len(),
{
    if stats.len() > 0 {
        let init = stats.drop_last();
        lemma_filter_idempotent(init, range);
        if in_range(stats.last(), range) {
            let f = filtered(init, range).push(stats.last());
            assert(f.drop_last() =~= filtered(init, range));
        }
    }
}

/// Every record that the filter keeps lies within the range, and the filter
/// keeps every record of the input that does.
pub proof fn lemma_filter_members(stats: Seq<PcStatus>, range: FilterRange)
    ensures
        forall|s: PcStatus| filtered(stats, range).contains(s) <==> (stats.contains(s) && in_range(s, range)),
    decreases stats.len(),
{
    if stats.len() > 0 {
        let init = stats.drop_last();
        lemma_filter_members(init, range);
        assert(stats =~= init.push(stats.last()));
        assert forall|s: PcStatus| stats.contains(s) <==> (init.contains(s) || s == stats.last()) by {
            if stats.contains(s) {
                let i = choose|i: int| 0 <= i < stats.len() && stats[i] == s;
                if i < stats.len() - 1 {
                    assert(init[i] == s);
                }
            }
            if init.contains(s) {
                let i = choose|i: int| 0 <= i < init.len() && init[i] == s;
                assert(stats[i] == s);
            }
            if s == stats.last() {
                assert(stats[stats.len() - 1] == s);
            }
        }
        let f = filtered(init, range);
        if in_range(stats.last(), range) {
            assert forall|s: PcStatus| f.push(stats.last()).contains(s) <==> (f.contains(s) || s == stats.last()) by {
                if f.push(stats.last()).contains(s) {
                    let i = choose|i: int| 0 <= i < f.len() + 1 && f.push(stats.last())[i] == s;
                    if i < f.len() {
                        assert(f[i] == s);
                    }
                }
                if f.contains(s) {
                    let i = choose|i: int| 0 <= i < f.len() && f[i] == s;
                    assert(f.push(stats.last())[i] == s);
                }
                if s == stats.last() {
                    assert(f.push(stats.last())[f.len() as int] == s);
                }
            }
        }
    }
}

/// A range that spans all of `[0, 100]` percent keeps every consistent
/// record, in its order.
pub proof fn lemma_full_range_keeps_all(stats: Seq<PcStatus>, range: FilterRange)
    requires
        range.ge == 0,
        range.le == FULL_RANGE,
        forall|i: int| 0 <= i < stats.len() ==> (#[trigger] stats[i]).wf(),
    ensures
        filtered(stats, range) == stats,
    decreases stats.len(),
{
    if stats.len() > 0 {
        let init = stats.drop_last();
        assert forall|i: int| 0 <= i < init.len() implies (#[trigger] init[i]).wf() by {
            assert(init[i] == stats[i]);
        }
        lemma_full_range_keeps_all(init, range);
        let s = stats.last();
        assert(stats[stats.len() - 1].wf());
        crate::model::lemma_percent_bounds(s);
        assert(s.percent_num() * FULL_RANGE <= FULL_RANGE * s.percent_den()) by (nonlinear_arith)
            requires
                s.percent_num() <= s.percent_den(),
        {
        }
        assert(stats =~= init.push(s));
    }
}

/// The paths to measure: the paths given, then those found in each mapping
/// table in turn, each path kept once, where it first occurs.
pub open spec fn target_paths(files: Seq<Seq<u8>>, found: Seq<Seq<Seq<u8>>>) -> Seq<Seq<u8>> {
    dedup(files + found.flatten())
}

/// The index of the first process whose mapping table could not be read, or
/// the number of processes if every one was read.
pub open spec fn first_missing(found: Seq<Option<Vec<Vec<u8>>>>) -> nat
    decreases found.len(),
{
    if found.len() == 0 || found[0] is None {
        0
    } else {
        1 + first_missing(found.drop_first())
    }
}

/// The path lists of the mapping tables that were read.
pub open spec fn found_views(found: Seq<Option<Vec<Vec<u8>>>>) -> Seq<Seq<Seq<u8>>> {
    found.map_values(|o: Option<Vec<Vec<u8>>>| match o {
        Some(v) => views(v@),
        None => Seq::empty(),
    })
}

/// Joins the paths given with those found in the mapping tables of `pids`
/// (`found[i]` holds those of `pids[i]`, or nothing where its table could
/// not be read), each path once, where it first occurs. A process whose
/// table could not be read ends the run: the first such is reported.
pub fn get_target_files(
    pids: &Vec<usize>,
    found: &Vec<Option<Vec<Vec<u8>>>>,
    files: &Vec<Vec<u8>>,
) -> (r: Result<Vec<Vec<u8>>, ResolveError>)
    requires
        found@.len() == pids@.len(),
    ensures
        first_missing(found@) < found@.len() ==> r == Err::<Vec<Vec<u8>>, ResolveError>(
            ResolveError::ProcessNotFound(pids@[first_missing(found@) as int]),
        ),
        first_missing(found@) >= found@.len() ==> r is Ok && views(r->Ok_0@) == target_paths(
            views(files@),
            found_views(found@),
        ),
{
    let mut r: Vec<Vec<u8>> = Vec::new();
    let mut i: usize = 0;
    while i < files.len()
        invariant
            i <= files@.len(),
            views(r@) == dedup(views(files@).take(i as int)),
        decreases files@.len() - i,
    {
        proof {
            let t = views(files@).take(i as int + 1);
            assert(t.drop_last() =~= views(files@).take(i as int));
            assert(t.last() == files@[i as int]@);
        }
        push_unique(&mut r, copy_bytes(files[i].as_slice()));
        i = i + 1;
    }
    assert(views(files@).take(files@.len() as int) =~= views(files@));
    let ghost mut acc: Seq<Seq<u8>> = views(files@);
    let mut k: usize = 0;
    assert(found@.skip(0) =~= found@);
    assert(found_views(found@).take(0).flatten() =~= Seq::<Seq<u8>>::empty()) by {
        assert(found_views(found@).take(0) =~= Seq::<Seq<Seq<u8>>>::empty());
    }
    assert(acc =~= views(files@) + found_views(found@).take(0).flatten());
    while k < found.len()
        invariant
            k <= found@.len(),
            found@.len() == pids@.len(),
            first_missing(found@) == k + first_missing(found@.skip(k as int)),
            acc == views(files@) + found_views(found@).take(k as int).flatten(),
            views(r@) == dedup(acc),
        decreases found@.len() - k,
    {
        match &found[k] {
            None => {
                assert(first_missing(found@.skip(k as int)) == 0);
                return Err(ResolveError::ProcessNotFound(pids[k]));
            },
            Some(paths) => {
                let ghost acc0 = acc;
                let mut j: usize = 0;
                while j < paths.len()
                    invariant
                        j <= paths@.len(),
                        acc == acc0 + views(paths@).take(j as int),
                        views(r@) == dedup(acc),
                    decreases paths@.len() - j,
                {
                    proof {
                        let next = acc0 + views(paths@).take(j as int + 1);
                        assert(next =~= acc.push(paths@[j as int]@));
                        assert(acc.push(paths@[j as int]@).drop_last() =~= acc);
                    }
                    push_unique(&mut r, copy_bytes(paths[j].as_slice()));
                    proof {
                        acc = acc0 + views(paths@).take(j as int + 1);
                    }
                    j = j + 1;
                }
                proof {
                    assert(views(paths@).take(paths@.len() as int) =~= views(paths@));
                    let fv = found_views(found@);
                    assert(fv[k as int] == views(paths@));
                    assert(fv.take(k as int + 1) =~= fv.take(k as int).push(views(paths@)));
                    fv.take(k as int).lemma_flatten_push(views(paths@));
                    assert(acc =~= views(files@) + fv.take(k as int + 1).flatten());
                    assert(found@.skip(k as int).drop_first() =~= found@.skip(k as int + 1));
                }
                k = k + 1;
            },
        }
    }
    proof {
        assert(found_views(found@).take(k as int) =~= found_views(found@));
        assert(found@.skip(k as int) =~= Seq::<Option<Vec<Vec<u8>>>>::empty());
    }
    Ok(r)
}

/// Each path to measure occurs exactly once among the targets, however many
/// times it was given or found: a path both given and found is measured once.
pub proof fn lemma_target_paths_once(files: Seq<Seq<u8>>, found: Seq<Seq<Seq<u8>>>, p: Seq<u8>)
    requires
        (files + found.flatten()).contains(p),
    ensures
        target_paths(files, found).contains(p),
        forall|i: int, j: int|
            0 <= i < target_paths(files, found).len() && 0 <= j < target_paths(files, found).len()
                && target_paths(files, found)[i] == p && target_paths(files, found)[j] == p
                ==> i == j,
{
    lemma_dedup_contents(files + found.flatten());
}

/// The records of the files that could be measured, in order; the files
/// that could not are passed over.
pub open spec fn measured(results: Seq<Result<PcStatus, ProbeError>>) -> Seq<PcStatus>
    decreases results.len(),
{
    if results.len() == 0 {
        Seq::empty()
    } else {
        match results.last() {
            Ok(s) => measured(results.drop_last()).push(s),
            Err(_) => measured(results.drop_last()),
        }
    }
}

/// Keeps the records of the files that could be measured, in order, and
/// passes over the failures: a failure is local to its file.
pub fn collect_stats(results: Vec<Result<PcStatus, ProbeError>>) -> (r: Vec<PcStatus>)
    ensures
        r@ == measured(results@),
{
    let ghost orig = results@;
    let mut rest = results;
    let mut r: Vec<PcStatus> = Vec::new();
    let ghost mut k: int = 0;
    while rest.len() > 0
        invariant
            0 <= k <= orig.len(),
            rest@ == orig.skip(k),
            r@ == measured(orig.take(k)),
        decreases rest@.len(),
    {
        let x = rest.remove(0);
        proof {
            assert(orig.take(k + 1).drop_last() =~= orig.take(k));
            assert(orig.take(k + 1).last() == x);
        }
        match x {
            Ok(s) => {
                r.push(s);
            },
            Err(_) => {},
        }
        proof {
            k = k + 1;
            assert(rest@ =~= orig.skip(k));
        }
    }
    assert(orig.take(k) =~= orig);
    r
}

} // verus!
