use vstd::prelude::*;

verus! {

/// `r` is an index that scanning `xs` for a greatest entry can give: the scan
/// starts at index 0 and moves to each later entry that the entry it holds is
/// `less` than.
pub open spec fn scans_to_max<T, L: Fn(T, T) -> bool>(xs: Seq<T>, less: L, r: int) -> bool
    decreases xs.len(),
{
    if xs.len() <= 1 {
        r == 0
    } else {
        let n = xs.len() - 1;
        exists|b: int|
            #![trigger xs[b]]
            0 <= b < n && scans_to_max(xs.drop_last(), less, b) && ((call_ensures(
                less,
                (xs[b], xs[n]),
                true,
            ) && r == n) || (call_ensures(less, (xs[b], xs[n]), false) && r == b))
    }
}

/// `r` is an index that scanning `xs` for the last entry that is `active`
/// can give: 0 where no entry is found active.
pub open spec fn scans_to_active<T, A: Fn(T) -> bool>(xs: Seq<T>, active: A, r: int) -> bool
    decreases xs.len(),
{
    if xs.len() == 0 {
        r == 0
    } else {
        let n = xs.len() - 1;
        (call_ensures(active, (xs[n],), true) && r == n) || (call_ensures(
            active,
            (xs[n],),
            false,
        ) && scans_to_active(xs.drop_last(), active, r))
    }
}

/// The index of the first greatest entry of `xs`, where `less` orders the
/// entries: of equal entries the first is kept.
pub fn arg_max<T: Copy, L: Fn(T, T) -> bool>(xs: &Vec<T>, less: L) -> (r: usize)
    requires
        xs@.len() > 0,
        forall|x: T, y: T| less.requires((x, y)),
    ensures
        r < xs@.len(),
        scans_to_max(xs@, less, r as int),
{
    let mut best: usize = 0;
    let mut i: usize = 1;
    assert(xs@.take(1).len() == 1);
    while i < xs.len()
        invariant
            forall|x: T, y: T| less.requires((x, y)),
            1 <= i <= xs@.len(),
            best < i,
            scans_to_max(xs@.take(i as int), less, best as int),
        decreases xs@.len() - i,
    {
        let moves = less(xs[best], xs[i]);
        let ghost b = best as int;
        if moves {
            best = i;
        }
        proof {
            let s = xs@.take(i + 1);
            assert(s.drop_last() =~= xs@.take(i as int));
            assert(s[b] == xs@[b]);
            assert(s[i as int] == xs@[i as int]);
            assert(scans_to_max(s.drop_last(), less, b));
            assert(call_ensures(less, (s[b], s[i as int]), moves));
        }
        i = i + 1;
    }
    assert(xs@.take(i as int) =~= xs@);
    best
}

/// The index of the last entry of `xs` that `active` holds of, or 0 where it
/// holds of none.
pub fn active_index<T: Copy, A: Fn(T) -> bool>(xs: &Vec<T>, active: A) -> (r: usize)
    requires
        forall|x: T| active.requires((x,)),
    ensures
        r == 0 || r < xs@.len(),
        scans_to_active(xs@, active, r as int),
{
    let mut found: usize = 0;
    let mut i: usize = 0;
    assert(xs@.take(0).len() == 0);
    while i < xs.len()
        invariant
            forall|x: T| active.requires((x,)),
            i <= xs@.len(),
            found == 0 || found < i,
            scans_to_active(xs@.take(i as int), active, found as int),
        decreases xs@.len() - i,
    {
        let hit = active(xs[i]);
        let ghost b = found as int;
        if hit {
            found = i;
        }
        proof {
            let s = xs@.take(i + 1);
            assert(s.drop_last() =~= xs@.take(i as int));
            assert(s[i as int] == xs@[i as int]);
            assert(scans_to_active(s.drop_last(), active, b));
            assert(call_ensures(active, (s[i as int],), hit));
        }
        i = i + 1;
    }
    assert(xs@.take(i as int) =~= xs@);
    found
}

} // verus!
