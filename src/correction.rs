use vstd::prelude::*;
use crate::frontier::{advanced, Description, Frontier};

verus! {

/// An update `(payload, time, diff)`. The payload is the key that stands for a
/// row (or for a dataflow error) in the desired relation.
pub type Update = (u64, u64, i64);

pub open spec fn abs(x: int) -> int {
    if x < 0 { -x } else { x }
}

/// The net multiplicity of `(d, t)` in a list of updates: the sum of the diffs
/// of the updates with that payload and time.
pub open spec fn net(s: Seq<Update>, d: u64, t: u64) -> int
    decreases s.len(),
{
    if s.len() == 0 {
        0
    } else {
        net(s.drop_last(), d, t) + if s.last().0 == d && s.last().1 == t {
            s.last().2 as int
        } else {
            0
        }
    }
}

/// The sum of the absolute values of all diffs.
pub open spec fn abs_mass(s: Seq<Update>) -> int
    decreases s.len(),
{
    if s.len() == 0 {
        0
    } else {
        abs_mass(s.drop_last()) + abs(s.last().2 as int)
    }
}

/// The sum of the absolute values of the diffs of the updates at `(d, t)`.
pub open spec fn key_mass(s: Seq<Update>, d: u64, t: u64) -> int
    decreases s.len(),
{
    if s.len() == 0 {
        0
    } else {
        key_mass(s.drop_last(), d, t) + if s.last().0 == d && s.last().1 == t {
            abs(s.last().2 as int)
        } else {
            0
        }
    }
}

/// The updates whose key is not `(d, t)`, in their order.
pub open spec fn without_key(s: Seq<Update>, d: u64, t: u64) -> Seq<Update>
    decreases s.len(),
{
    if s.len() == 0 {
        s
    } else {
        let rest = without_key(s.drop_last(), d, t);
        if s.last().0 == d && s.last().1 == t {
            rest
        } else {
            rest.push(s.last())
        }
    }
}

/// Strict order on the keys `(payload, time)` of two updates, payload first.
pub open spec fn key_lt(a: Update, b: Update) -> bool {
    a.0 < b.0 || (a.0 == b.0 && a.1 < b.1)
}

/// `r` is the consolidated form of `s`: sorted by strictly increasing key,
/// free of zero diffs, and with the same net multiplicity at every key.
pub open spec fn is_consolidation(r: Seq<Update>, s: Seq<Update>) -> bool {
    &&& forall|d: u64, t: u64| #[trigger] net(r, d, t) == net(s, d, t)
    &&& forall|i: int, j: int| 0 <= i < j < r.len() ==> key_lt(r[i], r[j])
    &&& forall|i: int| 0 <= i < r.len() ==> r[i].2 != 0
}

/// Every update of `s` with its time advanced by frontier `f`.
pub open spec fn advance_all(s: Seq<Update>, f: Frontier) -> Seq<Update> {
    Seq::new(s.len(), |i: int| (s[i].0, advanced(s[i].1, f), s[i].2))
}

/// Every update of `s` with its diff negated.
pub open spec fn negate_all(s: Seq<Update>) -> Seq<Update> {
    Seq::new(s.len(), |i: int| (s[i].0, s[i].1, -s[i].2 as i64))
}

/// The updates of `s` whose time falls in the window of description `desc`, in
/// their order.
pub open spec fn window(s: Seq<Update>, desc: Description) -> Seq<Update>
    decreases s.len(),
{
    if s.len() == 0 {
        s
    } else {
        let rest = window(s.drop_last(), desc);
        if desc.holds_time(s.last().1) {
            rest.push(s.last())
        } else {
            rest
        }
    }
}

pub proof fn lemma_push_drop_last(s: Seq<Update>, x: Update)
    ensures
        s.push(x).drop_last() == s,
        s.push(x).last() == x,
{
    assert(s.push(x).drop_last() =~= s);
}

pub proof fn lemma_mass_nonnegative(s: Seq<Update>)
    ensures
        abs_mass(s) >= 0,
    decreases s.len(),
{
    if s.len() > 0 {
        lemma_mass_nonnegative(s.drop_last());
    }
}

proof fn lemma_mass_split(s: Seq<Update>, d: u64, t: u64)
    ensures
        abs_mass(s) == abs_mass(without_key(s, d, t)) + key_mass(s, d, t),
    decreases s.len(),
{
    if s.len() > 0 {
        lemma_mass_split(s.drop_last(), d, t);
        lemma_push_drop_last(without_key(s.drop_last(), d, t), s.last());
    }
}

proof fn lemma_net_bounded(s: Seq<Update>, d: u64, t: u64)
    ensures
        abs(net(s, d, t)) <= key_mass(s, d, t),
    decreases s.len(),
{
    if s.len() > 0 {
        lemma_net_bounded(s.drop_last(), d, t);
    }
}

proof fn lemma_net_without_key(s: Seq<Update>, d: u64, t: u64, d2: u64, t2: u64)
    ensures
        net(without_key(s, d, t), d2, t2) == if d2 == d && t2 == t { 0 } else { net(s, d2, t2) },
    decreases s.len(),
{
    if s.len() > 0 {
        lemma_net_without_key(s.drop_last(), d, t, d2, t2);
        lemma_push_drop_last(without_key(s.drop_last(), d, t), s.last());
    }
}

pub proof fn lemma_net_absent(s: Seq<Update>, d: u64, t: u64)
    requires
        forall|i: int| 0 <= i < s.len() ==> !(s[i].0 == d && s[i].1 == t),
    ensures
        net(s, d, t) == 0,
    decreases s.len(),
{
    if s.len() > 0 {
        lemma_net_absent(s.drop_last(), d, t);
    }
}

/// Consolidation never adds to the absolute mass of a list of updates.
pub proof fn lemma_consolidation_mass(r: Seq<Update>, s: Seq<Update>)
    requires
        forall|d: u64, t: u64| #[trigger] net(r, d, t) == net(s, d, t),
        forall|i: int, j: int| 0 <= i < j < r.len() ==> key_lt(r[i], r[j]),
    ensures
        abs_mass(r) <= abs_mass(s),
    decreases r.len(),
{
    if r.len() > 0 {
        let x = r.last();
        let r2 = r.drop_last();
        let s2 = without_key(s, x.0, x.1);
        assert forall|i: int| 0 <= i < r2.len() implies !(r2[i].0 == x.0 && r2[i].1 == x.1) by {
            assert(key_lt(r[i], r[r.len() - 1]));
        }
        lemma_net_absent(r2, x.0, x.1);
        assert forall|d: u64, t: u64| #[trigger] net(r2, d, t) == net(s2, d, t) by {
            lemma_net_without_key(s, x.0, x.1, d, t);
            assert(net(r, d, t) == net(s, d, t));
        }
        lemma_consolidation_mass(r2, s2);
        lemma_net_bounded(s, x.0, x.1);
        lemma_mass_split(s, x.0, x.1);
        assert(net(r, x.0, x.1) == net(s, x.0, x.1));
        assert(net(r, x.0, x.1) == x.2 as int);
        assert(abs_mass(r) == abs_mass(r2) + abs(x.2 as int));
    } else {
        lemma_mass_nonnegative(s);
    }
}

pub proof fn lemma_advance_mass(s: Seq<Update>, f: Frontier)
    ensures
        abs_mass(advance_all(s, f)) == abs_mass(s),
    decreases s.len(),
{
    if s.len() > 0 {
        lemma_advance_mass(s.drop_last(), f);
        assert(advance_all(s, f).drop_last() =~= advance_all(s.drop_last(), f));
    }
}

/// The net multiplicity of payload `p` over all times.
pub open spec fn total(s: Seq<Update>, p: u64) -> int
    decreases s.len(),
{
    if s.len() == 0 {
        0
    } else {
        total(s.drop_last(), p) + if s.last().0 == p { s.last().2 as int } else { 0 }
    }
}

pub proof fn lemma_total_concat(a: Seq<Update>, b: Seq<Update>, p: u64)
    ensures
        total(a + b, p) == total(a, p) + total(b, p),
    decreases b.len(),
{
    if b.len() > 0 {
        assert((a + b).drop_last() =~= a + b.drop_last());
        lemma_total_concat(a, b.drop_last(), p);
    } else {
        assert(a + b =~= a);
    }
}

pub proof fn lemma_total_negate(s: Seq<Update>, p: u64)
    requires
        forall|i: int| 0 <= i < s.len() ==> s[i].2 > i64::MIN,
    ensures
        total(negate_all(s), p) == -total(s, p),
    decreases s.len(),
{
    if s.len() > 0 {
        assert(negate_all(s).drop_last() =~= negate_all(s.drop_last()));
        lemma_total_negate(s.drop_last(), p);
    }
}

pub proof fn lemma_total_advance(s: Seq<Update>, f: Frontier, p: u64)
    ensures
        total(advance_all(s, f), p) == total(s, p),
    decreases s.len(),
{
    if s.len() > 0 {
        assert(advance_all(s, f).drop_last() =~= advance_all(s.drop_last(), f));
        lemma_total_advance(s.drop_last(), f, p);
    }
}

proof fn lemma_total_without_key(s: Seq<Update>, d: u64, t: u64, p: u64)
    ensures
        total(s, p) == total(without_key(s, d, t), p) + if d == p { net(s, d, t) } else { 0 },
    decreases s.len(),
{
    if s.len() > 0 {
        lemma_total_without_key(s.drop_last(), d, t, p);
        lemma_push_drop_last(without_key(s.drop_last(), d, t), s.last());
    }
}

/// Consolidation keeps the net multiplicity of every payload over all times.
pub proof fn lemma_consolidation_total(r: Seq<Update>, s: Seq<Update>, p: u64)
    requires
        forall|d: u64, t: u64| #[trigger] net(r, d, t) == net(s, d, t),
        forall|i: int, j: int| 0 <= i < j < r.len() ==> key_lt(r[i], r[j]),
    ensures
        total(r, p) == total(s, p),
    decreases r.len(),
{
    if r.len() > 0 {
        let x = r.last();
        let r2 = r.drop_last();
        let s2 = without_key(s, x.0, x.1);
        assert forall|i: int| 0 <= i < r2.len() implies !(r2[i].0 == x.0 && r2[i].1 == x.1) by {
            assert(key_lt(r[i], r[r.len() - 1]));
        }
        lemma_net_absent(r2, x.0, x.1);
        assert forall|d: u64, t: u64| #[trigger] net(r2, d, t) == net(s2, d, t) by {
            lemma_net_without_key(s, x.0, x.1, d, t);
            assert(net(r, d, t) == net(s, d, t));
        }
        lemma_consolidation_total(r2, s2, p);
        lemma_total_without_key(s, x.0, x.1, p);
        assert(net(r, x.0, x.1) == net(s, x.0, x.1));
        assert(net(r, x.0, x.1) == x.2 as int);
    } else {
        assert(r =~= Seq::<Update>::empty());
        lemma_total_empty_nets(s, p);
    }
}

proof fn lemma_total_empty_nets(s: Seq<Update>, p: u64)
    requires
        forall|d: u64, t: u64| #[trigger] net(Seq::<Update>::empty(), d, t) == net(s, d, t),
    ensures
        total(s, p) == 0,
    decreases s.len(),
{
    if s.len() > 0 {
        let x = s.last();
        let s2 = without_key(s, x.0, x.1);
        assert(net(Seq::<Update>::empty(), x.0, x.1) == 0);
        assert forall|d: u64, t: u64| #[trigger] net(Seq::<Update>::empty(), d, t) == net(s2, d, t) by {
            lemma_net_without_key(s, x.0, x.1, d, t);
            assert(net(Seq::<Update>::empty(), d, t) == net(s, d, t));
        }
        lemma_without_key_shorter(s, x.0, x.1);
        lemma_total_empty_nets(s2, p);
        lemma_total_without_key(s, x.0, x.1, p);
    }
}

proof fn lemma_without_key_shorter(s: Seq<Update>, d: u64, t: u64)
    requires
        s.len() > 0,
        s.last().0 == d && s.last().1 == t,
    ensures
        without_key(s, d, t).len() < s.len(),
{
    lemma_without_key_len(s.drop_last(), d, t);
}

proof fn lemma_without_key_len(s: Seq<Update>, d: u64, t: u64)
    ensures
        without_key(s, d, t).len() <= s.len(),
    decreases s.len(),
{
    if s.len() > 0 {
        lemma_without_key_len(s.drop_last(), d, t);
    }
}

/// No diff of a list carries more absolute value than the whole list.
pub proof fn lemma_diff_within_mass(s: Seq<Update>, i: int)
    requires
        0 <= i < s.len(),
    ensures
        abs(s[i].2 as int) <= abs_mass(s),
    decreases s.len(),
{
    if i < s.len() - 1 {
        lemma_diff_within_mass(s.drop_last(), i);
    } else {
        lemma_mass_nonnegative(s.drop_last());
    }
}

/// Relies on differential_dataflow::consolidation::consolidate_updates: it
/// sorts the updates by `(payload, time)`, sums the diffs of each run of equal
/// keys and drops the sums that are zero. Diffs are summed with `+=`, so the
/// absolute mass is bounded to keep every partial sum in range.
#[verifier::external_body]
fn consolidate_updates(updates: &mut Vec<Update>)
    requires
        abs_mass(old(updates)@) <= i64::MAX,
    ensures
        is_consolidation(final(updates)@, old(updates)@),
{
    differential_dataflow::consolidation::consolidate_updates(updates);
}

/// Consolidates `updates` in place; the absolute mass does not grow.
pub fn consolidate(updates: &mut Vec<Update>)
    requires
        abs_mass(old(updates)@) <= i64::MAX,
    ensures
        is_consolidation(final(updates)@, old(updates)@),
        abs_mass(final(updates)@) <= abs_mass(old(updates)@),
{
    consolidate_updates(updates);
    proof {
        lemma_consolidation_mass(updates@, old(updates)@);
    }
}

/// The absolute value of a diff, as an unsigned number.
pub fn diff_magnitude(x: i64) -> (r: u64)
    ensures
        r as int == abs(x as int),
{
    if x >= 0 {
        x as u64
    } else {
        ((-(x + 1)) as u64) + 1
    }
}

/// The absolute mass of `updates`, or `None` when it exceeds `budget`.
pub fn mass_within(updates: &Vec<Update>, budget: u64) -> (r: Option<u64>)
    ensures
        r.is_some() <==> abs_mass(updates@) <= budget,
        r.is_some() ==> r.unwrap() as int == abs_mass(updates@),
{
    let mut sum: u64 = 0;
    let mut i: usize = 0;
    while i < updates.len()
        invariant
            i <= updates@.len(),
            sum as int == abs_mass(updates@.take(i as int)),
            sum <= budget,
        decreases updates@.len() - i,
    {
        proof {
            lemma_push_drop_last(updates@.take(i as int), updates@[i as int]);
            assert(updates@.take(i as int + 1) =~= updates@.take(i as int).push(updates@[i as int]));
        }
        let m = diff_magnitude(updates[i].2);
        if m > budget - sum {
            proof {
                lemma_prefix_mass(updates@, i as int + 1);
            }
            return None;
        }
        sum = sum + m;
        i = i + 1;
    }
    assert(updates@.take(i as int) =~= updates@);
    Some(sum)
}

/// A prefix carries no more absolute mass than the whole list.
pub proof fn lemma_prefix_mass(s: Seq<Update>, n: int)
    requires
        0 <= n <= s.len(),
    ensures
        abs_mass(s.take(n)) <= abs_mass(s),
    decreases s.len() - n,
{
    if n < s.len() {
        lemma_prefix_mass(s, n + 1);
        lemma_push_drop_last(s.take(n), s[n]);
        assert(s.take(n + 1) =~= s.take(n).push(s[n]));
    } else {
        assert(s.take(n) =~= s);
    }
}

} // verus!
