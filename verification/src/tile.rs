use vstd::prelude::*;

verus! {

/// The closed set of concrete states a grid cell may resolve to.
#[derive(Copy, Debug, PartialEq, Eq, Structural)]
pub enum CellKind {
    Wall,
    Air,
    Goal,
}

impl Clone for CellKind {
    fn clone(&self) -> (r: Self)
        ensures
            r == *self,
    {
        *self
    }
}

/// The full possibility set a fresh cell starts from.
pub open spec fn all_kinds() -> Seq<CellKind> {
    seq![CellKind::Wall, CellKind::Air, CellKind::Goal]
}

/// The adjacency rule: the kinds permitted in a 4-connected neighbor of a
/// cell that has collapsed to `kind`. The table is intentionally asymmetric.
pub open spec fn spec_can_have_around(kind: CellKind) -> Seq<CellKind> {
    match kind {
        CellKind::Wall => seq![CellKind::Wall, CellKind::Air],
        CellKind::Air => seq![CellKind::Wall, CellKind::Air, CellKind::Goal],
        CellKind::Goal => seq![CellKind::Air],
    }
}

/// The predicate "occurs in `b`", as a function value usable with `filter`.
pub open spec fn occurs_in(b: Seq<CellKind>) -> spec_fn(CellKind) -> bool {
    |k: CellKind| b.contains(k)
}

/// The kinds of `a`, in order, that also occur in `b`.
pub open spec fn kind_intersection(a: Seq<CellKind>, b: Seq<CellKind>) -> Seq<CellKind> {
    a.filter(occurs_in(b))
}

/// The set of kinds permitted next to a just-collapsed cell of the given kind.
pub fn can_have_around(kind: CellKind) -> (r: Vec<CellKind>)
    ensures
        r@ == spec_can_have_around(kind),
{
    match kind {
        CellKind::Wall => {
            let v = vec![CellKind::Wall, CellKind::Air];
            proof {
                assert(v@ =~= spec_can_have_around(CellKind::Wall));
            }
            v
        },
        CellKind::Air => {
            let v = vec![CellKind::Wall, CellKind::Air, CellKind::Goal];
            proof {
                assert(v@ =~= spec_can_have_around(CellKind::Air));
            }
            v
        },
        CellKind::Goal => {
            let v = vec![CellKind::Air];
            proof {
                assert(v@ =~= spec_can_have_around(CellKind::Goal));
            }
            v
        },
    }
}

/// Whether `v` holds the kind `k`.
pub fn contains_kind(v: &Vec<CellKind>, k: CellKind) -> (r: bool)
    ensures
        r == v@.contains(k),
{
    let mut i: usize = 0;
    while i < v.len()
        invariant
            0 <= i <= v@.len(),
            forall|j: int| 0 <= j < i ==> v@[j] != k,
        decreases v@.len() - i,
    {
        if v[i] == k {
            return true;
        }
        i = i + 1;
    }
    false
}

/// The elements of `a`, in order, that also occur in `b`.
pub fn intersection(a: &Vec<CellKind>, b: &Vec<CellKind>) -> (r: Vec<CellKind>)
    ensures
        r@ == kind_intersection(a@, b@),
{
    let mut out: Vec<CellKind> = Vec::new();
    let mut i: usize = 0;
    while i < a.len()
        invariant
            0 <= i <= a@.len(),
            out@ == a@.subrange(0, i as int).filter(occurs_in(b@)),
        decreases a@.len() - i,
    {
        let ghost pred = occurs_in(b@);
        let ghost prefix = a@.subrange(0, i as int);
        let ghost ai = a@[i as int];
        proof {
            Seq::<CellKind>::filter_distributes_over_add(prefix, seq![ai], pred);
            assert(a@.subrange(0, i as int + 1) =~= prefix + seq![ai]);
        }
        let hit = contains_kind(b, a[i]);
        proof {
            assert(hit == b@.contains(ai));
            assert(pred(ai) == b@.contains(ai));
        }
        if hit {
            out.push(a[i]);
            proof {
                assert(pred(ai));
                assert(seq![ai].filter(pred) =~= seq![ai]) by {
                    reveal_with_fuel(Seq::filter, 2);
                    assert(seq![ai].drop_last() =~= Seq::<CellKind>::empty());
                }
                assert(out@ =~= prefix.filter(pred) + seq![ai].filter(pred));
            }
        } else {
            proof {
                assert(!pred(ai));
                assert(seq![ai].filter(pred) =~= Seq::<CellKind>::empty()) by {
                    reveal_with_fuel(Seq::filter, 2);
                    assert(seq![ai].drop_last() =~= Seq::<CellKind>::empty());
                }
                assert(out@ =~= prefix.filter(pred) + seq![ai].filter(pred));
            }
        }
        i = i + 1;
    }
    proof {
        assert(a@.subrange(0, a@.len() as int) =~= a@);
    }
    out
}

/// Every element of a filtered sequence occurs in the original sequence and
/// satisfies the filtering predicate.
pub proof fn lemma_filter_is_subset<A>(s: Seq<A>, pred: spec_fn(A) -> bool, k: A)
    requires
        s.filter(pred).contains(k),
    ensures
        s.contains(k),
        pred(k),
    decreases s.len(),
{
    reveal(Seq::filter);
    if s.len() == 0 {
    } else {
        if s.last() == k && pred(k) {
            assert(s[s.len() - 1] == k);
        } else {
            if pred(s.last()) {
                assert(s.filter(pred) == s.drop_last().filter(pred).push(s.last()));
                if k == s.last() {
                    assert(s.contains(k)) by {
                        assert(s[s.len() - 1] == k);
                    }
                } else {
                    assert(s.drop_last().filter(pred).contains(k)) by {
                        let j = choose|j: int|
                            0 <= j < s.filter(pred).len() && s.filter(pred)[j] == k;
                        assert(s.filter(pred)[j] == k);
                        if j < s.filter(pred).len() - 1 {
                            assert(s.drop_last().filter(pred)[j] == k);
                        }
                    }
                    lemma_filter_is_subset(s.drop_last(), pred, k);
                    let j = choose|j: int| 0 <= j < s.drop_last().len() && s.drop_last()[j] == k;
                    assert(s[j] == k);
                }
            } else {
                lemma_filter_is_subset(s.drop_last(), pred, k);
                let j = choose|j: int| 0 <= j < s.drop_last().len() && s.drop_last()[j] == k;
                assert(s[j] == k);
            }
        }
    }
}

} // verus!
