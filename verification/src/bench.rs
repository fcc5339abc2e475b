//! What a bench of tunnel establishment reports of its samples.

use vstd::prelude::*;

verus! {

/// Whether a sequence never falls.
pub open spec fn rising(s: Seq<u64>) -> bool {
    forall|i: int, j: int| 0 <= i <= j < s.len() ==> s[i] <= s[j]
}

/// The place of a quantile, in hundredths, among `n` sorted samples: the
/// nearest to that part of the last place, and the higher of two.
pub open spec fn place(n: nat, hundredths: nat) -> int {
    ((n - 1) * hundredths + 50) / 100
}

/// What is reported of the samples.
#[derive(Debug, Clone, Copy, PartialEq, Eq, Structural)]
pub struct Summary {
    pub p50: u64,
    pub p95: u64,
    pub min: u64,
    pub max: u64,
}

/// Whether a summary is that of some samples: `sorted` holds the same samples
/// in order, and the summary its values at the two quantiles and the ends.
pub open spec fn sums_up(sorted: Seq<u64>, samples: Seq<u64>, r: Summary) -> bool {
    &&& rising(sorted)
    &&& sorted.to_multiset() == samples.to_multiset()
    &&& r.p50 == sorted[place(samples.len(), 50)]
    &&& r.p95 == sorted[place(samples.len(), 95)]
    &&& r.min == sorted[0]
    &&& r.max == sorted[samples.len() - 1]
}

/// Puts a sample into its place among sorted ones.
fn insert_sorted(v: &mut Vec<u64>, x: u64)
    requires
        rising(old(v)@),
    ensures
        rising(final(v)@),
        final(v)@.len() == old(v)@.len() + 1,
        final(v)@.to_multiset() == old(v)@.to_multiset().insert(x),
{
    let ghost before = v@;
    let mut i: usize = v.len();
    while i > 0 && v[i - 1] > x
        invariant
            i <= v@.len(),
            v@ == before,
            forall|j: int| i <= j < v@.len() ==> v@[j] > x,
        decreases i,
    {
        i -= 1;
    }
    v.insert(i, x);
    proof {
        before.to_multiset_ensures();
        v@.to_multiset_ensures();
        vstd::seq_lib::to_multiset_insert(before, i as int, x);
        assert(v@ =~= before.insert(i as int, x));
        assert forall|a: int, b: int| 0 <= a <= b < v@.len() implies v@[a] <= v@[b] by {
            if a < i && b > i {
                assert(before[a] <= before[b - 1]);
            } else if a < i && b < i {
                assert(before[a] <= before[b]);
            } else if a > i {
                assert(before[a - 1] <= before[b - 1]);
            } else if a < i && b == i {
                assert(before[a] <= before[i - 1]);
            }
        }
    }
}

fn sorted(samples: &Vec<u64>) -> (r: Vec<u64>)
    ensures
        rising(r@),
        r@.to_multiset() == samples@.to_multiset(),
        r@.len() == samples@.len(),
{
    let mut out: Vec<u64> = Vec::new();
    let mut i: usize = 0;
    assert(samples@.subrange(0, 0) =~= Seq::<u64>::empty());
    while i < samples.len()
        invariant
            i <= samples@.len(),
            rising(out@),
            out@.len() == i,
            out@.to_multiset() == samples@.subrange(0, i as int).to_multiset(),
        decreases samples@.len() - i,
    {
        let ghost taken = samples@.subrange(0, i as int);
        insert_sorted(&mut out, samples[i]);
        proof {
            taken.to_multiset_ensures();
            assert(samples@.subrange(0, i + 1) =~= taken.push(samples@[i as int]));
        }
        i += 1;
    }
    assert(samples@.subrange(0, i as int) =~= samples@);
    out
}

/// The place of a quantile, in hundredths.
fn place_of(n: usize, hundredths: usize) -> (r: usize)
    requires
        0 < n,
        hundredths <= 100,
    ensures
        r == place(n as nat, hundredths as nat),
        r < n,
{
    assert(0 <= (n - 1) * hundredths <= (n - 1) * 100) by (nonlinear_arith)
        requires
            hundredths <= 100,
            0 < n,
    ;
    let x: u128 = ((n - 1) as u128) * (hundredths as u128) + 50;
    (x / 100) as usize
}

/// Sums up the samples of a bench, of which there is at least one.
pub fn summary(samples: &Vec<u64>) -> (r: Summary)
    requires
        samples@.len() > 0,
    ensures
        exists|s: Seq<u64>| sums_up(s, samples@, r),
{
    let s = sorted(samples);
    let n: usize = s.len();
    let r = Summary { p50: s[place_of(n, 50)], p95: s[place_of(n, 95)], min: s[0], max: s[n - 1] };
    assert(sums_up(s@, samples@, r));
    r
}

/// Law: there is only one way to put samples in order, so that a summary is
/// the only one of its samples.
pub proof fn law_summary_is_unique(
    a: Seq<u64>,
    b: Seq<u64>,
    samples: Seq<u64>,
    x: Summary,
    y: Summary,
)
    requires
        samples.len() > 0,
        sums_up(a, samples, x),
        sums_up(b, samples, y),
    ensures
        x == y,
{
    samples.to_multiset_ensures();
    a.to_multiset_ensures();
    b.to_multiset_ensures();
    lemma_same_order(a, b);
}

proof fn lemma_same_order(a: Seq<u64>, b: Seq<u64>)
    requires
        rising(a),
        rising(b),
        a.to_multiset() == b.to_multiset(),
    ensures
        a == b,
    decreases a.len(),
{
    a.to_multiset_ensures();
    b.to_multiset_ensures();
    if a.len() > 0 {
        let la = a.last();
        let lb = b.last();
        assert(a.contains(la)) by {
            assert(a[a.len() - 1] == la);
        }
        assert(b.contains(lb)) by {
            assert(b[b.len() - 1] == lb);
        }
        assert(b.to_multiset().count(la) > 0);
        assert(a.to_multiset().count(lb) > 0);
        assert(b.contains(la));
        assert(a.contains(lb));
        let i = choose|i: int| 0 <= i < b.len() && b[i] == la;
        let j = choose|j: int| 0 <= j < a.len() && a[j] == lb;
        assert(b[i] <= b[b.len() - 1]);
        assert(a[j] <= a[a.len() - 1]);
        assert(la == lb);
        let da = a.drop_last();
        let db = b.drop_last();
        da.to_multiset_ensures();
        db.to_multiset_ensures();
        assert(a =~= da.push(la));
        assert(b =~= db.push(lb));
        assert(da.to_multiset().insert(la) == db.to_multiset().insert(la));
        assert(da.to_multiset() =~= da.to_multiset().insert(la).remove(la));
        assert(db.to_multiset() =~= db.to_multiset().insert(la).remove(la));
        lemma_same_order(da, db);
    } else {
        assert(a =~= b);
    }
}

/// Law: the place of a quantile is the nearest one to that part of the last
/// place: for the median the middle, or the higher of the two in the middle.
pub proof fn law_quantile_place(n: nat, h: nat)
    requires
        n > 0,
        h <= 100,
    ensures
        0 <= place(n, h) < n,
        (n - 1) * h - 50 < 100 * place(n, h) <= (n - 1) * h + 50,
        place(n, 50) == n / 2,
        place(n, 0) == 0,
        place(n, 100) == n - 1,
{
    assert((n - 1) * h <= (n - 1) * 100) by (nonlinear_arith)
        requires
            n > 0,
            h <= 100,
    ;
    assert(0 <= (n - 1) * h) by (nonlinear_arith)
        requires
            n > 0,
    ;
}

/// Law: no sample lies outside a summary's ends, and what it names are
/// samples, in order.
pub proof fn law_summary_spans_samples(sorted: Seq<u64>, samples: Seq<u64>, r: Summary, i: int)
    requires
        sums_up(sorted, samples, r),
        0 <= i < samples.len(),
    ensures
        r.min <= samples[i] <= r.max,
        r.min <= r.p50 <= r.p95 <= r.max,
        samples.contains(r.min),
        samples.contains(r.max),
        samples.contains(r.p50),
        samples.contains(r.p95),
{
    broadcast use vstd::seq_lib::group_to_multiset_ensures;

    let n = samples.len();
    assert(sorted.len() == sorted.to_multiset().len());
    assert(samples.len() == samples.to_multiset().len());
    law_quantile_place(n, 50);
    law_quantile_place(n, 95);
    assert(samples.contains(samples[i]));
    assert(samples.to_multiset().count(samples[i]) > 0);
    assert(sorted.contains(samples[i]));
    let k = choose|k: int| 0 <= k < sorted.len() && sorted[k] == samples[i];
    assert(sorted[0] <= sorted[k] <= sorted[n - 1]);
    assert(place(n, 50) <= place(n, 95));
    assert forall|j: int| 0 <= j < n implies samples.contains(#[trigger] sorted[j]) by {
        assert(sorted.contains(sorted[j]));
        assert(sorted.to_multiset().count(sorted[j]) > 0);
    }
}

} // verus!
