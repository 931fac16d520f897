//! Lists ordered strictly: such a list is fixed by what it holds.

use vstd::prelude::*;

verus! {

/// Two lists that are each strictly increasing in an order no two values
/// can both precede each other in, and that hold the same values, are the
/// same list.
pub proof fn strictly_ordered_lists_agree<T>(a: Seq<T>, b: Seq<T>, before: spec_fn(T, T) -> bool)
    requires
        forall|x: T, y: T| #[trigger] before(x, y) ==> !before(y, x),
        forall|i: int, j: int| 0 <= i < j < a.len() ==> before(#[trigger] a[i], #[trigger] a[j]),
        forall|i: int, j: int| 0 <= i < j < b.len() ==> before(#[trigger] b[i], #[trigger] b[j]),
        forall|x: T| #[trigger] a.contains(x) <==> b.contains(x),
    ensures
        a == b,
    decreases a.len() + b.len(),
{
    if a.len() == 0 || b.len() == 0 {
        if a.len() > 0 {
            assert(a.contains(a[0]));
            assert(b.contains(a[0]));
        }
        if b.len() > 0 {
            assert(b.contains(b[0]));
            assert(a.contains(b[0]));
        }
        assert(a =~= b);
    } else {
        assert(a.contains(a[0]));
        assert(b.contains(a[0]));
        assert(b.contains(b[0]));
        assert(a.contains(b[0]));
        let k = choose|k: int| 0 <= k < b.len() && b[k] == a[0];
        let m = choose|m: int| 0 <= m < a.len() && a[m] == b[0];
        if k > 0 && m > 0 {
            assert(before(b[0], b[k]));
            assert(before(a[0], a[m]));
        }
        assert(a[0] == b[0]);
        let (a1, b1) = (a.drop_first(), b.drop_first());
        assert forall|x: T| #[trigger] a1.contains(x) implies b1.contains(x) by {
            let i = choose|i: int| 0 <= i < a1.len() && a1[i] == x;
            assert(a[i + 1] == x);
            assert(before(a[0], a[i + 1]));
            assert(a.contains(x));
            assert(b.contains(x));
            let j = choose|j: int| 0 <= j < b.len() && b[j] == x;
            assert(j != 0);
            assert(b1[j - 1] == x);
        }
        assert forall|x: T| #[trigger] b1.contains(x) implies a1.contains(x) by {
            let j = choose|j: int| 0 <= j < b1.len() && b1[j] == x;
            assert(b[j + 1] == x);
            assert(before(b[0], b[j + 1]));
            assert(b.contains(x));
            assert(a.contains(x));
            let i = choose|i: int| 0 <= i < a.len() && a[i] == x;
            assert(i != 0);
            assert(a1[i - 1] == x);
        }
        assert forall|i: int, j: int| 0 <= i < j < a1.len() implies before(#[trigger] a1[i], #[trigger] a1[j]) by {
            assert(a1[i] == a[i + 1] && a1[j] == a[j + 1]);
        }
        assert forall|i: int, j: int| 0 <= i < j < b1.len() implies before(#[trigger] b1[i], #[trigger] b1[j]) by {
            assert(b1[i] == b[i + 1] && b1[j] == b[j + 1]);
        }
        strictly_ordered_lists_agree(a1, b1, before);
        assert(a =~= seq![a[0]] + a1);
        assert(b =~= seq![b[0]] + b1);
    }
}

} // verus!
