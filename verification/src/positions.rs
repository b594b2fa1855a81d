//! The positions of a range at which a predicate holds, as a sequence in
//! increasing order.

use vstd::prelude::*;

verus! {

/// The positions below `len` at which `p` holds, in increasing order.
pub open spec fn positions_where(len: nat, p: spec_fn(int) -> bool) -> Seq<int>
    decreases len,
{
    if len == 0 {
        Seq::empty()
    } else {
        let before = positions_where((len - 1) as nat, p);
        if p(len - 1) {
            before.push(len - 1)
        } else {
            before
        }
    }
}

/// Every position that was picked lies below `len` and satisfies `p`.
pub proof fn lemma_positions_sound(len: nat, p: spec_fn(int) -> bool)
    ensures
        positions_where(len, p).len() <= len,
        forall|t: int|
            0 <= t < positions_where(len, p).len() ==> 0 <= #[trigger] positions_where(len, p)[t]
                < len && p(positions_where(len, p)[t]),
    decreases len,
{
    if len > 0 {
        lemma_positions_sound((len - 1) as nat, p);
    }
}

/// Every position below `len` that satisfies `p` was picked.
pub proof fn lemma_positions_complete(len: nat, p: spec_fn(int) -> bool)
    ensures
        forall|x: int| 0 <= x < len && p(x) ==> #[trigger] positions_where(len, p).contains(x),
    decreases len,
{
    if len > 0 {
        let before = positions_where((len - 1) as nat, p);
        let all = positions_where(len, p);
        lemma_positions_complete((len - 1) as nat, p);
        assert forall|x: int| 0 <= x < len && p(x) implies #[trigger] all.contains(x) by {
            if x < len - 1 {
                assert(before.contains(x));
                let t = choose|t: int| 0 <= t < before.len() && before[t] == x;
                assert(all[t] == x);
            } else {
                assert(all[all.len() - 1] == x);
            }
        }
    }
}

/// The positions come in strictly increasing order.
pub proof fn lemma_positions_increasing(len: nat, p: spec_fn(int) -> bool)
    ensures
        forall|s: int, t: int|
            0 <= s < t < positions_where(len, p).len() ==> #[trigger] positions_where(len, p)[s]
                < #[trigger] positions_where(len, p)[t],
    decreases len,
{
    if len > 0 {
        lemma_positions_increasing((len - 1) as nat, p);
        lemma_positions_sound((len - 1) as nat, p);
    }
}

/// Only the values of the predicate below `len` matter.
pub proof fn lemma_positions_agree(len: nat, p: spec_fn(int) -> bool, q: spec_fn(int) -> bool)
    requires
        forall|x: int| 0 <= x < len ==> #[trigger] p(x) == q(x),
    ensures
        positions_where(len, p) == positions_where(len, q),
    decreases len,
{
    if len > 0 {
        lemma_positions_agree((len - 1) as nat, p, q);
    }
}

/// The predicate that holds at `x` when `p` holds at `offset + x`.
pub open spec fn shifted(p: spec_fn(int) -> bool, offset: int) -> spec_fn(int) -> bool {
    |x: int| p(offset + x)
}

/// The positions of `s`, each moved up by `offset`.
pub open spec fn translate(s: Seq<int>, offset: int) -> Seq<int> {
    Seq::new(s.len(), |t: int| offset + s[t])
}

/// The positions below `a + b` are those below `a`, followed by those of the
/// `b` positions from `a` on.
pub proof fn lemma_positions_split(a: nat, b: nat, p: spec_fn(int) -> bool)
    ensures
        positions_where(a + b, p) == positions_where(a, p) + translate(
            positions_where(b, shifted(p, a as int)),
            a as int,
        ),
    decreases b,
{
    let rest = translate(positions_where(b, shifted(p, a as int)), a as int);
    if b == 0 {
        assert(positions_where(a, p) + rest =~= positions_where(a, p));
    } else {
        lemma_positions_split(a, (b - 1) as nat, p);
        let shorter = translate(positions_where((b - 1) as nat, shifted(p, a as int)), a as int);
        assert(shifted(p, a as int)(b - 1) == p(a + b - 1));
        if p(a + b - 1) {
            assert(rest =~= shorter.push(a + b - 1));
            assert(positions_where(a, p) + shorter.push(a + b - 1) =~= (positions_where(a, p)
                + shorter).push(a + b - 1));
        } else {
            assert(rest =~= shorter);
        }
    }
}

} // verus!
