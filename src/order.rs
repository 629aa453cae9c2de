//! Lexicographic order on character sequences (the order of `str`'s `Ord`),
//! and a stable sort by such keys.
use vstd::prelude::*;

verus! {

/// `a` sorts strictly before `b`, character by character.
pub open spec fn lex_lt(a: Seq<char>, b: Seq<char>) -> bool
    decreases a.len(),
{
    if a.len() == 0 {
        b.len() > 0
    } else if b.len() == 0 {
        false
    } else if a[0] != b[0] {
        a[0] < b[0]
    } else {
        lex_lt(a.drop_first(), b.drop_first())
    }
}

pub proof fn lemma_lex_irreflexive(a: Seq<char>)
    ensures
        !lex_lt(a, a),
    decreases a.len(),
{
    if a.len() > 0 {
        lemma_lex_irreflexive(a.drop_first());
    }
}

pub proof fn lemma_lex_asymmetric(a: Seq<char>, b: Seq<char>)
    ensures
        !(lex_lt(a, b) && lex_lt(b, a)),
    decreases a.len(),
{
    if a.len() > 0 && b.len() > 0 && a[0] == b[0] {
        lemma_lex_asymmetric(a.drop_first(), b.drop_first());
    }
}

pub proof fn lemma_lex_transitive(a: Seq<char>, b: Seq<char>, c: Seq<char>)
    requires
        lex_lt(a, b),
        lex_lt(b, c),
    ensures
        lex_lt(a, c),
    decreases a.len(),
{
    if a.len() > 0 && b.len() > 0 && c.len() > 0 && a[0] == b[0] && b[0] == c[0] {
        lemma_lex_transitive(a.drop_first(), b.drop_first(), c.drop_first());
    }
}

pub proof fn lemma_lex_total(a: Seq<char>, b: Seq<char>)
    ensures
        lex_lt(a, b) || lex_lt(b, a) || a == b,
    decreases a.len(),
{
    if a.len() > 0 && b.len() > 0 && a[0] == b[0] {
        lemma_lex_total(a.drop_first(), b.drop_first());
        if a.drop_first() == b.drop_first() {
            assert(a =~= seq![a[0]] + a.drop_first());
            assert(b =~= seq![b[0]] + b.drop_first());
        }
    } else if a.len() == 0 && b.len() == 0 {
        assert(a =~= b);
    }
}

pub fn lex_less(a: &Vec<char>, b: &Vec<char>) -> (r: bool)
    ensures
        r == lex_lt(a@, b@),
{
    let mut i: usize = 0;
    proof {
        assert(a@.skip(0) =~= a@);
        assert(b@.skip(0) =~= b@);
    }
    while i < a.len() && i < b.len() && a[i] == b[i]
        invariant
            0 <= i <= a@.len(),
            i <= b@.len(),
            lex_lt(a@, b@) == lex_lt(a@.skip(i as int), b@.skip(i as int)),
        decreases a@.len() - i,
    {
        proof {
            let x = a@.skip(i as int);
            let y = b@.skip(i as int);
            assert(x.drop_first() =~= a@.skip(i + 1));
            assert(y.drop_first() =~= b@.skip(i + 1));
        }
        i = i + 1;
    }
    if i < a.len() && i < b.len() {
        a[i] < b[i]
    } else {
        i == a.len() && i < b.len()
    }
}

/// `order` lists `0..n` once each.
pub open spec fn is_permutation(order: Seq<usize>, n: int) -> bool {
    &&& order.len() == n
    &&& forall|k: int| 0 <= k < n ==> #[trigger] order[k] < n
    &&& forall|k: int, m: int| 0 <= k < m < n ==> #[trigger] order[k] != #[trigger] order[m]
}

/// Position `p` before `q` in `order`: keys never decrease, and equal keys
/// keep their input order.
pub open spec fn sorted_stably(order: Seq<usize>, keys: Seq<Seq<char>>) -> bool {
    forall|p: int, q: int|
        0 <= p < q < order.len() ==> {
            &&& !lex_lt(keys[#[trigger] order[q] as int], keys[#[trigger] order[p] as int])
            &&& (keys[order[p] as int] == keys[order[q] as int] ==> order[p] < order[q])
        }
}

/// The stable sort of `0..keys.len()` by `keys`.
pub fn sorted_order(keys: &Vec<Vec<char>>) -> (r: Vec<usize>)
    ensures
        is_permutation(r@, keys@.len() as int),
        sorted_stably(r@, keys@.map_values(|k: Vec<char>| k@)),
{
    let ghost kv = keys@.map_values(|k: Vec<char>| k@);
    let mut order: Vec<usize> = Vec::new();
    let mut i: usize = 0;
    while i < keys.len()
        invariant
            0 <= i <= keys@.len(),
            kv == keys@.map_values(|k: Vec<char>| k@),
            order@.len() == i,
            forall|k: int| 0 <= k < i ==> #[trigger] order@[k] < i,
            forall|k: int, m: int| 0 <= k < m < i ==> #[trigger] order@[k] != #[trigger] order@[m],
            sorted_stably(order@, kv),
        decreases keys@.len() - i,
    {
        let mut pos: usize = 0;
        while pos < order.len() && !lex_less(&keys[i], &keys[order[pos]])
            invariant
                0 <= pos <= order@.len(),
                order@.len() == i < keys@.len(),
                kv == keys@.map_values(|k: Vec<char>| k@),
                forall|k: int| 0 <= k < i ==> #[trigger] order@[k] < i,
                forall|p: int| 0 <= p < pos ==> !lex_lt(kv[i as int], kv[#[trigger] order@[p] as int]),
            decreases order@.len() - pos,
        {
            pos = pos + 1;
        }
        let ghost old_order = order@;
        order.insert(pos, i);
        proof {
            assert(order@ == old_order.insert(pos as int, i));
            assert forall|k: int| 0 <= k < i + 1 implies #[trigger] order@[k] < i + 1 by {
                if k < pos {
                    assert(order@[k] == old_order[k]);
                } else if k > pos {
                    assert(order@[k] == old_order[k - 1]);
                }
            }
            assert forall|k: int, m: int| 0 <= k < m < i + 1 implies #[trigger] order@[k]
                != #[trigger] order@[m] by {
                if k < pos && m < pos {
                    assert(order@[k] == old_order[k] && order@[m] == old_order[m]);
                } else if k < pos && m > pos {
                    assert(order@[k] == old_order[k] && order@[m] == old_order[m - 1]);
                } else if k > pos {
                    assert(order@[k] == old_order[k - 1] && order@[m] == old_order[m - 1]);
                } else if k == pos {
                    assert(order@[m] == old_order[m - 1]);
                } else {
                    assert(order@[k] == old_order[k]);
                }
            }
            let x = kv[i as int];
            if pos < old_order.len() {
                assert(lex_lt(x, kv[old_order[pos as int] as int]));
            }
            assert forall|p: int, q: int| 0 <= p < q < order@.len() implies {
                &&& !lex_lt(kv[#[trigger] order@[q] as int], kv[#[trigger] order@[p] as int])
                &&& (kv[order@[p] as int] == kv[order@[q] as int] ==> order@[p] < order@[q])
            } by {
                if q < pos {
                    assert(order@[p] == old_order[p] && order@[q] == old_order[q]);
                } else if q == pos {
                    assert(order@[p] == old_order[p]);
                } else if p == pos {
                    let y = kv[old_order[pos as int] as int];
                    let z = kv[old_order[q - 1] as int];
                    assert(order@[q] == old_order[q - 1]);
                    lemma_lex_asymmetric(x, y);
                    lemma_lex_irreflexive(x);
                    if q - 1 > pos {
                        assert(!lex_lt(kv[old_order[q - 1] as int], kv[old_order[pos as int] as int]));
                        if lex_lt(z, x) {
                            lemma_lex_transitive(z, x, y);
                        }
                    }
                } else if p < pos {
                    assert(order@[p] == old_order[p] && order@[q] == old_order[q - 1]);
                    assert(!lex_lt(kv[old_order[q - 1] as int], kv[old_order[p] as int]));
                } else {
                    assert(order@[p] == old_order[p - 1] && order@[q] == old_order[q - 1]);
                    assert(!lex_lt(kv[old_order[q - 1] as int], kv[old_order[p - 1] as int]));
                }
            }
        }
        i = i + 1;
    }
    order
}

} // verus!
