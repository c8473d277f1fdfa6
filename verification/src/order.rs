//! Keys by which documents are ordered, and a stable ordering of positions
//! by key.

use vstd::prelude::*;
use crate::text::{chars_lt, lemma_lex_irreflexive, lemma_lex_total, lemma_lex_transitive, lex_lt};

verus! {

/// A key by which a document is ordered: a number, or a text compared
/// character by character.
pub enum SortKey {
    Number(u64),
    Text(Vec<char>),
}

/// The mathematical value of a [`SortKey`].
pub enum KeyView {
    Number(u64),
    Text(Seq<char>),
}

impl View for SortKey {
    type V = KeyView;

    open spec fn view(&self) -> KeyView {
        match self {
            SortKey::Number(n) => KeyView::Number(*n),
            SortKey::Text(t) => KeyView::Text(t@),
        }
    }
}

/// Strict order on keys: numbers by value, texts lexicographically, and every
/// number before every text (a single ordering never mixes the two).
pub open spec fn key_lt(a: KeyView, b: KeyView) -> bool {
    match (a, b) {
        (KeyView::Number(x), KeyView::Number(y)) => x < y,
        (KeyView::Text(x), KeyView::Text(y)) => lex_lt(x, y),
        (KeyView::Number(_), KeyView::Text(_)) => true,
        (KeyView::Text(_), KeyView::Number(_)) => false,
    }
}

/// `a` comes no later than `b`.
pub open spec fn key_le(a: KeyView, b: KeyView) -> bool {
    key_lt(a, b) || a == b
}

/// No key comes before itself.
pub proof fn lemma_key_irreflexive(a: KeyView)
    ensures
        !key_lt(a, a),
{
    if let KeyView::Text(x) = a {
        lemma_lex_irreflexive(x);
    }
}

/// The order on keys is transitive.
pub proof fn lemma_key_transitive(a: KeyView, b: KeyView, c: KeyView)
    requires
        key_lt(a, b),
        key_lt(b, c),
    ensures
        key_lt(a, c),
{
    match (a, b, c) {
        (KeyView::Text(x), KeyView::Text(y), KeyView::Text(z)) => {
            lemma_lex_transitive(x, y, z);
        },
        _ => {},
    }
}

/// Two different keys are ordered one way or the other.
pub proof fn lemma_key_total(a: KeyView, b: KeyView)
    requires
        a != b,
    ensures
        key_lt(a, b) || key_lt(b, a),
{
    match (a, b) {
        (KeyView::Text(x), KeyView::Text(y)) => {
            lemma_lex_total(x, y);
        },
        _ => {},
    }
}

/// `key_le` is transitive.
pub proof fn lemma_key_le_transitive(a: KeyView, b: KeyView, c: KeyView)
    requires
        key_le(a, b),
        key_le(b, c),
    ensures
        key_le(a, c),
{
    if key_lt(a, b) && key_lt(b, c) {
        lemma_key_transitive(a, b, c);
    }
}

/// Whether `a` comes strictly before `b`.
pub fn key_less(a: &SortKey, b: &SortKey) -> (r: bool)
    ensures
        r == key_lt(a@, b@),
{
    match (a, b) {
        (SortKey::Number(x), SortKey::Number(y)) => *x < *y,
        (SortKey::Text(x), SortKey::Text(y)) => chars_lt(x, y),
        (SortKey::Number(_), SortKey::Text(_)) => true,
        (SortKey::Text(_), SortKey::Number(_)) => false,
    }
}

/// The views of a sequence of keys.
pub open spec fn key_views(keys: Seq<SortKey>) -> Seq<KeyView> {
    keys.map_values(|k: SortKey| k@)
}

/// Position `p` comes before position `q` when sorting `keys` stably: by key,
/// and among equal keys by position.
pub open spec fn before(keys: Seq<KeyView>, p: int, q: int) -> bool {
    key_lt(keys[p], keys[q]) || (keys[p] == keys[q] && p < q)
}

/// `order` lists positions of `keys`, one for each key, in stable sorted
/// order: by key, and among equal keys in their original order.
pub open spec fn is_stable_order(order: Seq<usize>, keys: Seq<KeyView>) -> bool {
    &&& order.len() == keys.len()
    &&& forall|i: int| 0 <= i < order.len() ==> #[trigger] order[i] < keys.len()
    &&& forall|i: int, j: int|
        0 <= i < j < order.len() ==> before(keys, #[trigger] order[i] as int, #[trigger] order[j] as int)
}

/// The positions of `keys` in stable sorted order (an insertion sort that puts
/// each position after every earlier one with an equal or smaller key).
pub fn stable_order(keys: &Vec<SortKey>) -> (order: Vec<usize>)
    ensures
        is_stable_order(order@, key_views(keys@)),
{
    let ghost kv = key_views(keys@);
    let n = keys.len();
    let mut order: Vec<usize> = Vec::new();
    let mut t: usize = 0;
    while t < n
        invariant
            n == keys@.len(),
            kv == key_views(keys@),
            t <= n,
            order@.len() == t,
            forall|i: int| 0 <= i < order@.len() ==> #[trigger] order@[i] < t,
            forall|i: int, j: int|
                0 <= i < j < order@.len() ==> before(kv, #[trigger] order@[i] as int, #[trigger] order@[j] as int),
        decreases n - t,
    {
        let mut q: usize = order.len();
        while q > 0 && key_less(&keys[t], &keys[order[q - 1]])
            invariant
                n == keys@.len(),
                kv == key_views(keys@),
                t < n,
                q <= order@.len(),
                order@.len() == t,
                forall|i: int| 0 <= i < order@.len() ==> #[trigger] order@[i] < t,
                forall|j: int| q <= j < order@.len() ==> key_lt(kv[t as int], kv[#[trigger] order@[j] as int]),
            decreases q,
        {
            q = q - 1;
        }
        let ghost old_order = order@;
        proof {
            if q > 0 {
                assert(!key_lt(kv[t as int], kv[old_order[q - 1] as int]));
                if kv[t as int] != kv[old_order[q - 1] as int] {
                    lemma_key_total(kv[t as int], kv[old_order[q - 1] as int]);
                }
                assert forall|j: int| 0 <= j < q implies key_le(kv[#[trigger] old_order[j] as int], kv[t as int]) by {
                    if j < q - 1 {
                        assert(before(kv, old_order[j] as int, old_order[q - 1] as int));
                        lemma_key_le_transitive(kv[old_order[j] as int], kv[old_order[q - 1] as int], kv[t as int]);
                    }
                }
            }
        }
        order.insert(q, t);
        proof {
            let new_order = order@;
            assert(new_order == old_order.insert(q as int, t));
            assert forall|i: int| 0 <= i < new_order.len() implies #[trigger] new_order[i] < t + 1 by {
                if i < q {
                    assert(new_order[i] == old_order[i]);
                } else if i > q {
                    assert(new_order[i] == old_order[i - 1]);
                }
            }
            assert forall|i: int, j: int| 0 <= i < j < new_order.len() implies before(
                kv,
                #[trigger] new_order[i] as int,
                #[trigger] new_order[j] as int,
            ) by {
                if j < q {
                    assert(new_order[i] == old_order[i] && new_order[j] == old_order[j]);
                } else if j == q {
                    assert(new_order[i] == old_order[i]);
                    assert(key_le(kv[old_order[i] as int], kv[t as int]));
                } else if i < q {
                    assert(new_order[i] == old_order[i] && new_order[j] == old_order[j - 1]);
                    assert(before(kv, old_order[i] as int, old_order[j - 1] as int));
                } else if i == q {
                    assert(new_order[j] == old_order[j - 1]);
                    assert(key_lt(kv[t as int], kv[old_order[j - 1] as int]));
                } else {
                    assert(new_order[i] == old_order[i - 1] && new_order[j] == old_order[j - 1]);
                    assert(before(kv, old_order[i - 1] as int, old_order[j - 1] as int));
                }
            }
        }
        t = t + 1;
    }
    order
}

/// No two positions come before each other.
pub proof fn lemma_before_asymmetric(keys: Seq<KeyView>, p: int, q: int)
    requires
        before(keys, p, q),
    ensures
        !before(keys, q, p),
{
    lemma_key_irreflexive(keys[p]);
    if key_lt(keys[p], keys[q]) && key_lt(keys[q], keys[p]) {
        lemma_key_transitive(keys[p], keys[q], keys[p]);
    }
}

/// Two different positions come one before the other.
pub proof fn lemma_before_total(keys: Seq<KeyView>, p: int, q: int)
    requires
        p != q,
    ensures
        before(keys, p, q) || before(keys, q, p),
{
    if keys[p] != keys[q] {
        lemma_key_total(keys[p], keys[q]);
    }
}

/// A stable order lists no position twice.
pub proof fn lemma_stable_order_distinct(order: Seq<usize>, keys: Seq<KeyView>, i: int, j: int)
    requires
        is_stable_order(order, keys),
        0 <= i < order.len(),
        0 <= j < order.len(),
        i != j,
    ensures
        order[i] != order[j],
{
    if i < j {
        assert(before(keys, order[i] as int, order[j] as int));
        lemma_key_irreflexive(keys[order[i] as int]);
    } else {
        assert(before(keys, order[j] as int, order[i] as int));
        lemma_key_irreflexive(keys[order[j] as int]);
    }
}

/// A stable order lists every position.
pub proof fn lemma_stable_order_covers(order: Seq<usize>, keys: Seq<KeyView>, p: int)
    requires
        is_stable_order(order, keys),
        0 <= p < keys.len(),
    ensures
        exists|i: int| 0 <= i < order.len() && order[i] as int == p,
{
    let n = keys.len() as int;
    let s = order.map_values(|x: usize| x as int);
    assert(s.no_duplicates()) by {
        assert forall|i: int, j: int| 0 <= i < s.len() && 0 <= j < s.len() && i != j implies s[i] != s[j] by {
            lemma_stable_order_distinct(order, keys, i, j);
        }
    }
    s.unique_seq_to_set();
    let range = vstd::set_lib::set_int_range(0, n);
    vstd::set_lib::lemma_int_range(0, n);
    assert(s.to_set().subset_of(range)) by {
        assert forall|x: int| s.to_set().contains(x) implies range.contains(x) by {
            let i = choose|i: int| 0 <= i < s.len() && s[i] == x;
            assert(order[i] < keys.len());
        }
    }
    vstd::seq_lib::seq_to_set_is_finite(s);
    vstd::set_lib::lemma_subset_equality(s.to_set(), range);
    assert(range.contains(p));
    assert(s.to_set().contains(p));
    let i = choose|i: int| 0 <= i < s.len() && s[i] == p;
    assert(order[i] as int == p);
}

/// Two stable orders of the same keys agree up to position `i`.
proof fn lemma_stable_orders_agree(o1: Seq<usize>, o2: Seq<usize>, keys: Seq<KeyView>, i: int)
    requires
        is_stable_order(o1, keys),
        is_stable_order(o2, keys),
        0 <= i < keys.len(),
    ensures
        forall|j: int| 0 <= j <= i ==> o1[j] == o2[j],
    decreases i,
{
    if i > 0 {
        lemma_stable_orders_agree(o1, o2, keys, i - 1);
    }
    let a = o1[i] as int;
    let b = o2[i] as int;
    if a != b {
        lemma_stable_order_covers(o2, keys, a);
        let ja = choose|j: int| 0 <= j < o2.len() && o2[j] as int == a;
        lemma_stable_order_covers(o1, keys, b);
        let jb = choose|j: int| 0 <= j < o1.len() && o1[j] as int == b;
        if ja < i {
            assert(o1[ja] == o2[ja]);
            lemma_stable_order_distinct(o1, keys, ja, i);
        } else if jb < i {
            assert(o1[jb] == o2[jb]);
            lemma_stable_order_distinct(o2, keys, jb, i);
        } else {
            assert(ja > i && jb > i);
            assert(before(keys, a, b));
            assert(before(keys, b, a));
            lemma_before_asymmetric(keys, a, b);
        }
    }
}

/// The keys have one stable order only.
pub proof fn lemma_stable_order_unique(o1: Seq<usize>, o2: Seq<usize>, keys: Seq<KeyView>)
    requires
        is_stable_order(o1, keys),
        is_stable_order(o2, keys),
    ensures
        o1 == o2,
{
    if keys.len() > 0 {
        lemma_stable_orders_agree(o1, o2, keys, keys.len() - 1);
    }
    assert(o1 =~= o2);
}

/// Numbers are ordered by their values, texts lexicographically, and numbers
/// before texts.
pub proof fn lemma_key_order(x: u64, y: u64, a: Seq<char>, b: Seq<char>)
    ensures
        key_lt(KeyView::Number(x), KeyView::Number(y)) <==> x < y,
        key_le(KeyView::Number(x), KeyView::Number(y)) <==> x <= y,
        key_lt(KeyView::Text(a), KeyView::Text(b)) <==> lex_lt(a, b),
        key_lt(KeyView::Number(x), KeyView::Text(a)),
        !key_lt(KeyView::Text(a), KeyView::Number(x)),
{
}

/// A text key no later than another is not lexicographically after it.
pub proof fn lemma_text_key_le(a: Seq<char>, b: Seq<char>)
    requires
        key_le(KeyView::Text(a), KeyView::Text(b)),
    ensures
        !lex_lt(b, a),
{
    lemma_lex_irreflexive(a);
    if lex_lt(a, b) && lex_lt(b, a) {
        lemma_lex_transitive(a, b, a);
    }
}

} // verus!
