//! Ordered selections: the positions of a range at which a predicate holds.

use vstd::prelude::*;

verus! {

/// The positions below `n` at which `keep` holds, in increasing order.
pub open spec fn positions(n: nat, keep: spec_fn(int) -> bool) -> Seq<int>
    decreases n,
{
    if n == 0 {
        Seq::empty()
    } else {
        let before = positions((n - 1) as nat, keep);
        if keep(n - 1) {
            before.push(n - 1)
        } else {
            before
        }
    }
}

/// Whether `s` increases strictly from each entry to the next.
pub open spec fn increasing(s: Seq<int>) -> bool {
    forall|a: int, b: int| 0 <= a < b < s.len() ==> s[a] < s[b]
}

/// Whether `s` holds exactly the positions below `n` at which `keep` holds.
pub open spec fn holds_exactly(s: Seq<int>, n: nat, keep: spec_fn(int) -> bool) -> bool {
    &&& forall|a: int| 0 <= a < s.len() ==> 0 <= #[trigger] s[a] < n && keep(s[a])
    &&& forall|k: int| 0 <= k < n && keep(k) ==> s.contains(k)
}

/// A selection holds exactly the positions that satisfy the predicate, each
/// once and in increasing order.
pub proof fn lemma_positions(n: nat, keep: spec_fn(int) -> bool)
    ensures
        holds_exactly(positions(n, keep), n, keep),
        increasing(positions(n, keep)),
        positions(n, keep).len() <= n,
    decreases n,
{
    if n > 0 {
        let before = positions((n - 1) as nat, keep);
        let all = positions(n, keep);
        lemma_positions((n - 1) as nat, keep);
        assert forall|k: int| 0 <= k < n && keep(k) implies all.contains(k) by {
            if k < n - 1 {
                assert(before.contains(k));
                let a = choose|a: int| 0 <= a < before.len() && before[a] == k;
                assert(all[a] == k);
            } else {
                assert(all[all.len() - 1] == k);
            }
        }
    }
}

/// An increasing sequence that holds exactly the selected positions is the
/// selection itself.
pub proof fn lemma_positions_unique(s: Seq<int>, n: nat, keep: spec_fn(int) -> bool)
    requires
        holds_exactly(s, n, keep),
        increasing(s),
    ensures
        s == positions(n, keep),
    decreases n,
{
    if n == 0 {
        if s.len() > 0 {
            assert(0 <= s[0] < n);
        }
        assert(s =~= positions(n, keep));
    } else {
        let last = n - 1;
        if keep(last) {
            assert(s.contains(last));
            let a = choose|a: int| 0 <= a < s.len() && s[a] == last;
            if a < s.len() - 1 {
                assert(s[a] < s[s.len() - 1]);
                assert(0 <= s[s.len() - 1] < n);
            }
            let front = s.drop_last();
            assert forall|k: int| 0 <= k < last && keep(k) implies front.contains(k) by {
                assert(s.contains(k));
                let b = choose|b: int| 0 <= b < s.len() && s[b] == k;
                assert(front[b] == k);
            }
            assert forall|b: int| 0 <= b < front.len() implies 0 <= #[trigger] front[b] < last
                && keep(front[b]) by {
                assert(s[b] < s[a]);
            }
            lemma_positions_unique(front, last as nat, keep);
            assert(s =~= front.push(last));
        } else {
            assert forall|k: int| 0 <= k < last && keep(k) implies s.contains(k) by {
                assert(s.contains(k));
            }
            assert forall|b: int| 0 <= b < s.len() implies 0 <= #[trigger] s[b] < last && keep(
                s[b],
            ) by {
                assert(0 <= s[b] < n && keep(s[b]));
            }
            lemma_positions_unique(s, last as nat, keep);
        }
    }
}

/// Two predicates that agree below `n` select the same positions.
pub proof fn lemma_positions_agree(n: nat, f: spec_fn(int) -> bool, g: spec_fn(int) -> bool)
    requires
        forall|k: int| 0 <= k < n ==> #[trigger] f(k) == g(k),
    ensures
        positions(n, f) == positions(n, g),
    decreases n,
{
    if n > 0 {
        lemma_positions_agree((n - 1) as nat, f, g);
    }
}

} // verus!
