//! The order of encoded items: byte strings compared lexicographically, a proper prefix
//! first, which is how `[u8]` compares. Encoded sets are laid out in this order.

use vstd::prelude::*;

verus! {

/// Lexicographic order on byte strings, a proper prefix first.
pub open spec fn bytes_lt(a: Seq<u8>, b: Seq<u8>) -> bool
    decreases a.len(),
{
    if a.len() == 0 {
        b.len() > 0
    } else if b.len() == 0 {
        false
    } else if a[0] != b[0] {
        a[0] < b[0]
    } else {
        bytes_lt(a.drop_first(), b.drop_first())
    }
}

/// The order on byte strings is transitive.
pub proof fn lemma_bytes_lt_transitive(a: Seq<u8>, b: Seq<u8>, c: Seq<u8>)
    requires
        bytes_lt(a, b),
        bytes_lt(b, c),
    ensures
        bytes_lt(a, c),
    decreases a.len(),
{
    if a.len() > 0 && b.len() > 0 && c.len() > 0 && a[0] == b[0] && b[0] == c[0] {
        lemma_bytes_lt_transitive(a.drop_first(), b.drop_first(), c.drop_first());
    }
}

/// The order on byte strings is irreflexive and asymmetric, and of two different strings one
/// comes first.
pub proof fn lemma_bytes_lt_total(a: Seq<u8>, b: Seq<u8>)
    ensures
        !bytes_lt(a, a),
        a == b || bytes_lt(a, b) || bytes_lt(b, a),
        !(bytes_lt(a, b) && bytes_lt(b, a)),
    decreases a.len(),
{
    if a.len() > 0 {
        lemma_bytes_lt_total(a.drop_first(), a.drop_first());
    }
    if a.len() > 0 && b.len() > 0 {
        lemma_bytes_lt_total(a.drop_first(), b.drop_first());
        if a[0] == b[0] && a.drop_first() == b.drop_first() {
            assert(a =~= seq![a[0]] + a.drop_first());
            assert(b =~= seq![b[0]] + b.drop_first());
        }
    }
    if a.len() == 0 && b.len() == 0 {
        assert(a =~= b);
    }
}

/// Strictly ascending byte strings.
pub open spec fn bytes_ascending(s: Seq<Seq<u8>>) -> bool {
    forall|i: int, j: int| 0 <= i < j < s.len() ==> bytes_lt(#[trigger] s[i], #[trigger] s[j])
}

/// No two items are the same.
pub open spec fn items_distinct(s: Seq<Seq<u8>>) -> bool {
    forall|i: int, j: int| 0 <= i < j < s.len() ==> #[trigger] s[i] != #[trigger] s[j]
}

/// `o` holds the items of `s` in ascending byte order.
pub open spec fn in_bytes_order(o: Seq<Seq<u8>>, s: Seq<Seq<u8>>) -> bool {
    bytes_ascending(o) && o.to_set() == s.to_set()
}

/// The items of `s` in ascending byte order.
pub open spec fn sorted_items(s: Seq<Seq<u8>>) -> Seq<Seq<u8>> {
    choose|o: Seq<Seq<u8>>| in_bytes_order(o, s)
}

/// Dropping the least item of an ascending sequence leaves the rest of its set.
proof fn lemma_drop_least(a: Seq<Seq<u8>>)
    requires
        bytes_ascending(a),
        a.len() > 0,
    ensures
        a.drop_first().to_set() == a.to_set().remove(a[0]),
        bytes_ascending(a.drop_first()),
{
    assert(a.drop_first().to_set() =~= a.to_set().remove(a[0])) by {
        assert forall|x| a.drop_first().to_set().contains(x) <==> a.to_set().remove(a[0]).contains(x) by {
            if a.drop_first().contains(x) {
                let k = choose|k: int| 0 <= k < a.drop_first().len() && a.drop_first()[k] == x;
                assert(a[k + 1] == x);
                assert(bytes_lt(a[0], a[k + 1]));
                lemma_bytes_lt_total(a[0], a[0]);
            }
            if a.to_set().remove(a[0]).contains(x) {
                let k = choose|k: int| 0 <= k < a.len() && a[k] == x;
                assert(k != 0);
                assert(a.drop_first()[k - 1] == x);
            }
        }
    }
    let t = a.drop_first();
    assert forall|x: int, y: int| 0 <= x < y < t.len() implies bytes_lt(#[trigger] t[x], #[trigger] t[y]) by {
        assert(t[x] == a[x + 1] && t[y] == a[y + 1]);
    }
}

/// There is only one way to lay out a set of byte strings in ascending order.
pub proof fn lemma_bytes_order_unique(a: Seq<Seq<u8>>, b: Seq<Seq<u8>>, s: Seq<Seq<u8>>)
    requires
        in_bytes_order(a, s),
        in_bytes_order(b, s),
    ensures
        a == b,
    decreases a.len(),
{
    if a.len() == 0 {
        if b.len() > 0 {
            assert(b.to_set().contains(b[0]));
            assert(!a.to_set().contains(b[0]));
        }
        assert(a =~= b);
    } else {
        assert(a.to_set().contains(a[0]));
        assert(b.to_set().contains(a[0]));
        let j = choose|j: int| 0 <= j < b.len() && b[j] == a[0];
        assert(b.to_set().contains(b[0]));
        let i = choose|i: int| 0 <= i < a.len() && a[i] == b[0];
        lemma_bytes_lt_total(a[0], b[0]);
        if i > 0 {
            assert(bytes_lt(a[0], a[i]));
            if j > 0 {
                assert(bytes_lt(b[0], b[j]));
            } else {
                lemma_bytes_lt_total(a[0], a[0]);
            }
        } else if j > 0 {
            assert(bytes_lt(b[0], b[j]));
            lemma_bytes_lt_total(b[0], b[0]);
        }
        assert(a[0] == b[0]);
        lemma_drop_least(a);
        lemma_drop_least(b);
        let t = a.drop_first();
        lemma_bytes_order_unique(t, b.drop_first(), t);
        assert(a =~= seq![a[0]] + t);
        assert(b =~= seq![b[0]] + b.drop_first());
    }
}

/// Whether `a` orders strictly before `b`.
pub fn bytes_less(a: &[u8], b: &[u8]) -> (r: bool)
    ensures
        r == bytes_lt(a@, b@),
{
    let mut i: usize = 0;
    assert(a@.skip(0) =~= a@);
    assert(b@.skip(0) =~= b@);
    loop
        invariant
            i <= a@.len(),
            i <= b@.len(),
            bytes_lt(a@, b@) == bytes_lt(a@.skip(i as int), b@.skip(i as int)),
        decreases a@.len() - i,
    {
        if i == a.len() {
            return i < b.len();
        }
        if i == b.len() {
            return false;
        }
        let x = a[i];
        let y = b[i];
        if x != y {
            return x < y;
        }
        assert(a@.skip(i as int).drop_first() =~= a@.skip(i + 1));
        assert(b@.skip(i as int).drop_first() =~= b@.skip(i + 1));
        i = i + 1;
    }
}

} // verus!
