//! Performance snapshots: which benches two snapshots share, and which
//! appear in only one of them. The timings themselves (floats) are
//! compared by the caller.
use vstd::prelude::*;
use crate::text::{chars_eq, chars_of, owned};

verus! {

/// Criterion's output directory, relative to the workspace.
pub fn default_target_dir() -> (r: String)
    ensures
        r@ == "target"@,
{
    owned("target")
}

pub open spec fn keys_view(v: Seq<String>) -> Seq<Seq<char>> {
    v.map_values(|s: String| s@)
}

/// The keys of `a` that `b` holds (`keep`) or lacks (`!keep`), in the
/// order of `a`.
pub open spec fn filter_keys(a: Seq<Seq<char>>, b: Seq<Seq<char>>, keep: bool) -> Seq<Seq<char>>
    decreases a.len(),
{
    if a.len() == 0 {
        Seq::empty()
    } else {
        let prev = filter_keys(a.drop_last(), b, keep);
        if b.contains(a.last()) == keep {
            prev.push(a.last())
        } else {
            prev
        }
    }
}

fn holds(v: &Vec<String>, k: &String) -> (r: bool)
    ensures
        r == keys_view(v@).contains(k@),
{
    let key = chars_of(k.as_str());
    let mut i: usize = 0;
    while i < v.len()
        invariant
            i <= v@.len(),
            key@ == k@,
            forall|m: int| 0 <= m < i ==> keys_view(v@)[m] != k@,
        decreases v.len() - i,
    {
        let x = chars_of(v[i].as_str());
        if chars_eq(&x, &key) {
            assert(keys_view(v@)[i as int] == k@);
            return true;
        }
        i += 1;
    }
    false
}

fn filter(a: &Vec<String>, b: &Vec<String>, keep: bool) -> (r: Vec<String>)
    ensures
        keys_view(r@) == filter_keys(keys_view(a@), keys_view(b@), keep),
{
    let mut out: Vec<String> = Vec::new();
    let mut i: usize = 0;
    assert(keys_view(a@).subrange(0, 0) =~= Seq::<Seq<char>>::empty());
    assert(keys_view(out@) =~= Seq::<Seq<char>>::empty());
    while i < a.len()
        invariant
            i <= a@.len(),
            keys_view(out@) == filter_keys(keys_view(a@).subrange(0, i as int), keys_view(b@), keep),
        decreases a.len() - i,
    {
        let ghost sub = keys_view(a@).subrange(0, i + 1);
        assert(sub.drop_last() =~= keys_view(a@).subrange(0, i as int));
        assert(sub.last() == a@[i as int]@);
        let ghost before = out@;
        if holds(b, &a[i]) == keep {
            out.push(owned(a[i].as_str()));
            assert(keys_view(out@) =~= keys_view(before).push(a@[i as int]@));
        }
        i += 1;
    }
    assert(keys_view(a@).subrange(0, a@.len() as int) =~= keys_view(a@));
    out
}

/// The bench keys of a baseline and a current snapshot, split three
/// ways: those in both (baseline order), those only in the baseline
/// (baseline order), and those only in the current one (current order).
pub fn split_bench_keys(baseline: &Vec<String>, current: &Vec<String>) -> (r: (Vec<String>, Vec<String>, Vec<String>))
    ensures
        keys_view(r.0@) == filter_keys(keys_view(baseline@), keys_view(current@), true),
        keys_view(r.1@) == filter_keys(keys_view(baseline@), keys_view(current@), false),
        keys_view(r.2@) == filter_keys(keys_view(current@), keys_view(baseline@), false),
{
    (filter(baseline, current, true), filter(baseline, current, false), filter(current, baseline, false))
}

} // verus!
