//! The deterministic encoder. Encoding is infallible: every value that reaches it has been
//! validated by a constructor. There is no path that emits a longer head than the shortest,
//! which makes shortest form structural rather than checked.

use vstd::prelude::*;

use crate::cbor::major;
use crate::cbor::order::{bytes_less, bytes_lt, bytes_ascending, items_distinct, in_bytes_order, sorted_items, lemma_bytes_lt_total, lemma_bytes_lt_transitive, lemma_bytes_order_unique};
use crate::ids::Uid;
use crate::types::Extra;
use vstd::string::StringSliceAdditionalSpecFns;
use vstd::std_specs::iter::IteratorSpec;
use vstd::std_specs::cmp::OrdSpec;

verus! {

/// The two big-endian bytes of the low 16 bits of `v`.
pub open spec fn be2(v: u64) -> Seq<u8> {
    seq![(v >> 8u64) as u8, v as u8]
}

/// The four big-endian bytes of the low 32 bits of `v`.
pub open spec fn be4(v: u64) -> Seq<u8> {
    seq![(v >> 24u64) as u8, (v >> 16u64) as u8, (v >> 8u64) as u8, v as u8]
}

/// The eight big-endian bytes of `v`.
pub open spec fn be8(v: u64) -> Seq<u8> {
    seq![
        (v >> 56u64) as u8,
        (v >> 48u64) as u8,
        (v >> 40u64) as u8,
        (v >> 32u64) as u8,
        (v >> 24u64) as u8,
        (v >> 16u64) as u8,
        (v >> 8u64) as u8,
        v as u8,
    ]
}

/// The shortest-form head of an item of major type `m` with argument `arg`: the argument in
/// the initial byte below 24, else in the fewest big-endian bytes that hold it.
pub open spec fn head_bytes(m: u8, arg: u64) -> Seq<u8> {
    if arg < 24 {
        seq![(m * 32 + arg) as u8]
    } else if arg < 0x100 {
        seq![(m * 32 + 24) as u8, arg as u8]
    } else if arg < 0x1_0000 {
        seq![(m * 32 + 25) as u8] + be2(arg)
    } else if arg < 0x1_0000_0000 {
        seq![(m * 32 + 26) as u8] + be4(arg)
    } else {
        seq![(m * 32 + 27) as u8] + be8(arg)
    }
}

/// The encoding of a uid: a 32-byte string.
pub open spec fn uid_item(u: Uid) -> Seq<u8> {
    head_bytes(major::BYTES, 32) + u.bytes()
}

/// The uid encodings of `s`, one after another.
pub open spec fn uid_items(s: Seq<Uid>) -> Seq<u8>
    decreases s.len(),
{
    if s.len() == 0 {
        Seq::empty()
    } else {
        uid_items(s.drop_last()) + uid_item(s.last())
    }
}

/// Pre-encoded items, one after another.
pub open spec fn concat_items(s: Seq<Seq<u8>>) -> Seq<u8>
    decreases s.len(),
{
    if s.len() == 0 {
        Seq::empty()
    } else {
        concat_items(s.drop_last()) + s.last()
    }
}

/// Pre-encoded items by their bytes.
pub open spec fn items_view(v: Seq<Vec<u8>>) -> Seq<Seq<u8>> {
    Seq::new(v.len(), |i: int| v[i]@)
}

/// Map entries by their key and their pre-encoded value bytes.
pub open spec fn entries_view(e: Seq<(u16, Vec<u8>)>) -> Seq<(u16, Seq<u8>)> {
    Seq::new(e.len(), |i: int| (e[i].0, e[i].1@))
}

/// The body of a map: each key as an unsigned integer followed by its value's bytes.
pub open spec fn entry_items(s: Seq<(u16, Seq<u8>)>) -> Seq<u8>
    decreases s.len(),
{
    if s.len() == 0 {
        Seq::empty()
    } else {
        entry_items(s.drop_last()) + head_bytes(major::UINT, s.last().0 as u64) + s.last().1
    }
}

/// No two entries share a key.
pub open spec fn keys_distinct(s: Seq<(u16, Seq<u8>)>) -> bool {
    forall|i: int, j: int| 0 <= i < j < s.len() ==> #[trigger] s[i].0 != #[trigger] s[j].0
}

/// Keys strictly ascending.
pub open spec fn keys_ascending(s: Seq<(u16, Seq<u8>)>) -> bool {
    forall|i: int, j: int| 0 <= i < j < s.len() ==> #[trigger] s[i].0 < #[trigger] s[j].0
}

/// `o` holds the entries of `s` in ascending key order.
pub open spec fn in_key_order(o: Seq<(u16, Seq<u8>)>, s: Seq<(u16, Seq<u8>)>) -> bool {
    keys_ascending(o) && o.to_set() == s.to_set()
}

/// The canonical encoding of a map with entries `s`.
pub open spec fn map_bytes(s: Seq<(u16, Seq<u8>)>) -> Seq<u8> {
    let o = choose|o: Seq<(u16, Seq<u8>)>| in_key_order(o, s);
    head_bytes(major::MAP, s.len() as u64) + entry_items(o)
}

/// There is only one way to lay out a set of entries in ascending key order.
pub proof fn lemma_key_order_unique(a: Seq<(u16, Seq<u8>)>, b: Seq<(u16, Seq<u8>)>, s: Seq<(u16, Seq<u8>)>)
    requires
        in_key_order(a, s),
        in_key_order(b, s),
    ensures
        a == b,
    decreases a.len(),
{
    if a.len() == 0 {
        if b.len() > 0 {
            assert(b.to_set().contains(b[0]));
            assert(!a.to_set().contains(b[0]));
        }
        assert(a =~= b);
    } else {
        assert(a.to_set().contains(a[0]));
        assert(b.to_set().contains(a[0]));
        let j = choose|j: int| 0 <= j < b.len() && b[j] == a[0];
        assert(b.to_set().contains(b[0]));
        let i = choose|i: int| 0 <= i < a.len() && a[i] == b[0];
        if i > 0 {
            assert(a[0].0 < a[i].0);
            if j > 0 {
                assert(b[0].0 < b[j].0);
            }
        }
        if j > 0 {
            assert(b[0].0 < b[j].0);
        }
        assert(a[0] == b[0]);
        let s2 = s.to_set().remove(a[0]);
        assert(a.drop_first().to_set() =~= a.to_set().remove(a[0])) by {
            assert forall|x| a.drop_first().to_set().contains(x) <==> a.to_set().remove(a[0]).contains(x) by {
                if a.drop_first().contains(x) {
                    let k = choose|k: int| 0 <= k < a.drop_first().len() && a.drop_first()[k] == x;
                    assert(a[k + 1] == x);
                    assert(a[0].0 < a[k + 1].0);
                }
                if a.to_set().remove(a[0]).contains(x) {
                    let k = choose|k: int| 0 <= k < a.len() && a[k] == x;
                    assert(k != 0);
                    assert(a.drop_first()[k - 1] == x);
                }
            }
        }
        assert(b.drop_first().to_set() =~= b.to_set().remove(b[0])) by {
            assert forall|x| b.drop_first().to_set().contains(x) <==> b.to_set().remove(b[0]).contains(x) by {
                if b.drop_first().contains(x) {
                    let k = choose|k: int| 0 <= k < b.drop_first().len() && b.drop_first()[k] == x;
                    assert(b[k + 1] == x);
                    assert(b[0].0 < b[k + 1].0);
                }
                if b.to_set().remove(b[0]).contains(x) {
                    let k = choose|k: int| 0 <= k < b.len() && b[k] == x;
                    assert(k != 0);
                    assert(b.drop_first()[k - 1] == x);
                }
            }
        }
        let t = a.drop_first();
        assert(in_key_order(t, t)) by {
            assert forall|x: int, y: int| 0 <= x < y < t.len() implies #[trigger] t[x].0 < #[trigger] t[y].0 by {
                assert(a[x + 1].0 < a[y + 1].0);
            }
        }
        assert(in_key_order(b.drop_first(), t)) by {
            let u = b.drop_first();
            assert forall|x: int, y: int| 0 <= x < y < u.len() implies #[trigger] u[x].0 < #[trigger] u[y].0 by {
                assert(b[x + 1].0 < b[y + 1].0);
            }
        }
        lemma_key_order_unique(t, b.drop_first(), t);
        assert(a =~= seq![a[0]] + t);
        assert(b =~= seq![b[0]] + b.drop_first());
    }
}

/// A deterministic CBOR encoder: the bytes written so far.
#[derive(Debug, Clone)]
pub struct Enc {
    buf: Vec<u8>,
}

impl View for Enc {
    type V = Seq<u8>;

    closed spec fn view(&self) -> Seq<u8> {
        self.buf@
    }
}

impl Default for Enc {
    fn default() -> (e: Enc)
        ensures
            e@ == Seq::<u8>::empty(),
    {
        Enc::new()
    }
}

impl Enc {
    pub fn new() -> (e: Enc)
        ensures
            e@ == Seq::<u8>::empty(),
    {
        Enc { buf: Vec::new() }
    }

    pub fn with_capacity(n: usize) -> (e: Enc)
        ensures
            e@ == Seq::<u8>::empty(),
    {
        Enc { buf: Vec::with_capacity(n) }
    }

    pub fn into_bytes(self) -> (b: Vec<u8>)
        ensures
            b@ == self@,
    {
        self.buf
    }

    pub fn as_bytes(&self) -> (b: &[u8])
        ensures
            b@ == self@,
    {
        self.buf.as_slice()
    }

    pub fn len(&self) -> (n: usize)
        ensures
            n == self@.len(),
    {
        self.buf.len()
    }

    pub fn is_empty(&self) -> (r: bool)
        ensures
            r == (self@.len() == 0),
    {
        self.buf.len() == 0
    }

    /// Appends `b` as it is.
    pub fn raw(&mut self, b: &[u8])
        ensures
            final(self)@ == old(self)@ + b@,
    {
        let mut i: usize = 0;
        while i < b.len()
            invariant
                i <= b.len(),
                self@ == old(self)@ + b@.take(i as int),
            decreases b.len() - i,
        {
            self.buf.push(b[i]);
            assert(b@.take(i + 1) =~= b@.take(i as int).push(b@[i as int]));
            i = i + 1;
        }
        assert(b@.take(b.len() as int) =~= b@);
    }

    /// Appends the shortest-form head of major type `m` with argument `arg`.
    pub fn head(&mut self, m: u8, arg: u64)
        requires
            m < 8,
        ensures
            final(self)@ == old(self)@ + head_bytes(m, arg),
    {
        let top: u8 = m * 32;
        if arg < 24 {
            self.buf.push(top + arg as u8);
        } else if arg < 0x100 {
            self.buf.push(top + 24);
            self.buf.push(arg as u8);
        } else if arg < 0x1_0000 {
            self.buf.push(top + 25);
            self.buf.push((arg >> 8u64) as u8);
            self.buf.push(arg as u8);
        } else if arg < 0x1_0000_0000 {
            self.buf.push(top + 26);
            self.buf.push((arg >> 24u64) as u8);
            self.buf.push((arg >> 16u64) as u8);
            self.buf.push((arg >> 8u64) as u8);
            self.buf.push(arg as u8);
        } else {
            self.buf.push(top + 27);
            self.buf.push((arg >> 56u64) as u8);
            self.buf.push((arg >> 48u64) as u8);
            self.buf.push((arg >> 40u64) as u8);
            self.buf.push((arg >> 32u64) as u8);
            self.buf.push((arg >> 24u64) as u8);
            self.buf.push((arg >> 16u64) as u8);
            self.buf.push((arg >> 8u64) as u8);
            self.buf.push(arg as u8);
        }
        assert(self@ =~= old(self)@ + head_bytes(m, arg));
    }

    pub fn uint(&mut self, v: u64)
        ensures
            final(self)@ == old(self)@ + head_bytes(major::UINT, v),
    {
        self.head(major::UINT, v);
    }

    /// A byte string: a length head, then the bytes.
    pub fn bytes(&mut self, b: &[u8])
        ensures
            final(self)@ == old(self)@ + head_bytes(major::BYTES, b@.len() as u64) + b@,
    {
        self.head(major::BYTES, b.len() as u64);
        self.raw(b);
        assert(final(self)@ =~= old(self)@ + head_bytes(major::BYTES, b@.len() as u64) + b@);
    }

    /// A text string: a length head, then the UTF-8 bytes. Text reaches the encoder already
    /// NFC-normalised by the constructors.
    pub fn text(&mut self, s: &str)
        ensures
            final(self)@ == old(self)@ + head_bytes(major::TEXT, s.spec_bytes().len() as u64) + s.spec_bytes(),
    {
        let b = s.as_bytes();
        self.head(major::TEXT, b.len() as u64);
        self.raw(b);
        assert(final(self)@ =~= old(self)@ + head_bytes(major::TEXT, s.spec_bytes().len() as u64) + s.spec_bytes());
    }

    pub fn array_head(&mut self, n: usize)
        ensures
            final(self)@ == old(self)@ + head_bytes(major::ARRAY, n as u64),
    {
        self.head(major::ARRAY, n as u64);
    }

    /// A uid: a 32-byte string.
    pub fn uid(&mut self, u: &Uid)
        ensures
            final(self)@ == old(self)@ + uid_item(*u),
    {
        let b = u.as_bytes();
        self.head(major::BYTES, 32);
        let mut i: usize = 0;
        while i < 32
            invariant
                i <= 32,
                b@ == u.bytes(),
                b@.len() == 32,
                self@ == old(self)@ + head_bytes(major::BYTES, 32) + b@.take(i as int),
            decreases 32 - i,
        {
            self.buf.push(b[i]);
            assert(b@.take(i + 1) =~= b@.take(i as int).push(b@[i as int]));
            i = i + 1;
        }
        assert(b@.take(32) =~= b@);
    }

    /// A set of uids as an array, in the order given. A canonical uid set is ascending by
    /// bytes, and uids are fixed width, so that order is encoded-byte order.
    pub fn uid_set(&mut self, set: &Vec<Uid>)
        ensures
            final(self)@ == old(self)@ + head_bytes(major::ARRAY, set@.len() as u64) + uid_items(set@),
    {
        self.array_head(set.len());
        let ghost start = self@;
        let mut i: usize = 0;
        while i < set.len()
            invariant
                i <= set.len(),
                self@ == start + uid_items(set@.take(i as int)),
            decreases set.len() - i,
        {
            self.uid(&set[i]);
            assert(set@.take(i + 1).drop_last() =~= set@.take(i as int));
            i = i + 1;
        }
        assert(set@.take(set.len() as int) =~= set@);
        assert(final(self)@ =~= old(self)@ + head_bytes(major::ARRAY, set@.len() as u64) + uid_items(set@));
    }

    /// An array of pre-encoded elements, in the order given: for sequences whose order is
    /// authored rather than derived.
    pub fn array(&mut self, items: Vec<Vec<u8>>)
        ensures
            final(self)@ == old(self)@ + head_bytes(major::ARRAY, items@.len() as u64) + concat_items(
                Seq::new(items@.len(), |i: int| items@[i]@),
            ),
    {
        self.array_head(items.len());
        let ghost start = self@;
        let ghost all = Seq::new(items@.len(), |i: int| items@[i]@);
        let mut i: usize = 0;
        while i < items.len()
            invariant
                i <= items.len(),
                all == Seq::new(items@.len(), |i: int| items@[i]@),
                self@ == start + concat_items(all.take(i as int)),
            decreases items.len() - i,
        {
            self.raw(items[i].as_slice());
            assert(all.take(i + 1).drop_last() =~= all.take(i as int));
            i = i + 1;
        }
        assert(all.take(items.len() as int) =~= all);
        assert(final(self)@ =~= old(self)@ + head_bytes(major::ARRAY, items@.len() as u64) + concat_items(all));
    }

    /// An array of pre-encoded elements, emitted in ascending order of their bytes: the
    /// layout of a set. The same element twice is a bug in the caller, which builds a set.
    pub fn sorted_array(&mut self, items: Vec<Vec<u8>>)
        requires
            items_distinct(items_view(items@)),
        ensures
            final(self)@ == old(self)@ + head_bytes(major::ARRAY, items@.len() as u64) + concat_items(
                sorted_items(items_view(items@)),
            ),
    {
        let ghost s = items_view(items@);
        let mut sorted: Vec<Vec<u8>> = Vec::new();
        assert(items_view(sorted@).to_set() =~= s.take(0).to_set());
        let mut i: usize = 0;
        while i < items.len()
            invariant
                i <= items.len(),
                s == items_view(items@),
                items_distinct(s),
                in_bytes_order(items_view(sorted@), s.take(i as int)),
                sorted@.len() == i,
            decreases items.len() - i,
        {
            let mut p: usize = 0;
            while p < sorted.len() && bytes_less(sorted[p].as_slice(), items[i].as_slice())
                invariant
                    p <= sorted.len(),
                    i < items@.len(),
                    forall|j: int| 0 <= j < p ==> bytes_lt(#[trigger] sorted@[j]@, items@[i as int]@),
                decreases sorted.len() - p,
            {
                p = p + 1;
            }
            let ghost pre = items_view(sorted@);
            let ghost x = s[i as int];
            proof {
                if p < sorted.len() {
                    // `x` is new, so the element at `p` lies strictly above it
                    assert(pre.to_set().contains(pre[p as int]));
                    assert(s.take(i as int).to_set().contains(pre[p as int]));
                    let q = choose|q: int| 0 <= q < s.take(i as int).len() && s.take(i as int)[q] == pre[p as int];
                    assert(s[q] != s[i as int]);
                    lemma_bytes_lt_total(x, pre[p as int]);
                }
            }
            sorted.insert(p, items[i].clone());
            let ghost post = items_view(sorted@);
            assert(post =~= pre.take(p as int).push(x) + pre.skip(p as int));
            let ghost t0 = s.take(i as int);
            let ghost t1 = s.take(i + 1);
            assert(t1 =~= t0.push(x));
            assert(post.to_set() =~= t1.to_set()) by {
                assert forall|y| post.to_set().contains(y) <==> t1.to_set().contains(y) by {
                    if post.contains(y) {
                        let q = choose|q: int| 0 <= q < post.len() && post[q] == y;
                        if q < p {
                            assert(pre.contains(pre[q]));
                            assert(pre.to_set().contains(y));
                        } else if q > p {
                            assert(pre.contains(pre[q - 1]));
                            assert(pre.to_set().contains(y));
                        }
                        if y != x {
                            let r = choose|r: int| 0 <= r < t0.len() && t0[r] == y;
                            assert(t1[r] == y);
                        } else {
                            assert(t1[i as int] == y);
                        }
                    }
                    if t1.contains(y) {
                        let r = choose|r: int| 0 <= r < t1.len() && t1[r] == y;
                        if r == i {
                            assert(post[p as int] == y);
                        } else {
                            assert(t0[r] == y);
                            assert(pre.to_set().contains(y));
                            let q = choose|q: int| 0 <= q < pre.len() && pre[q] == y;
                            if q < p {
                                assert(post[q] == y);
                            } else {
                                assert(post[q + 1] == y);
                            }
                        }
                    }
                }
            }
            assert(bytes_ascending(post)) by {
                assert forall|a: int, b: int| 0 <= a < b < post.len() implies bytes_lt(#[trigger] post[a], #[trigger] post[b]) by {
                    if b < p {
                        assert(post[a] == pre[a] && post[b] == pre[b]);
                    } else if b == p {
                        assert(post[a] == pre[a]);
                    } else if a < p {
                        assert(post[a] == pre[a] && post[b] == pre[b - 1]);
                        if b - 1 != a {
                            assert(bytes_lt(pre[a], pre[b - 1]));
                        }
                    } else if a == p {
                        assert(post[b] == pre[b - 1]);
                        if b - 1 > p {
                            assert(bytes_lt(pre[p as int], pre[b - 1]));
                            lemma_bytes_lt_transitive(x, pre[p as int], pre[b - 1]);
                        }
                    } else {
                        assert(post[a] == pre[a - 1] && post[b] == pre[b - 1]);
                        assert(bytes_lt(pre[a - 1], pre[b - 1]));
                    }
                }
            }
            i = i + 1;
        }
        assert(s.take(items.len() as int) =~= s);
        let ghost o = items_view(sorted@);
        proof {
            lemma_bytes_order_unique(o, sorted_items(s), s);
        }
        assert(Seq::new(sorted@.len(), |j: int| sorted@[j]@) =~= sorted_items(s));
        self.array(sorted);
    }

    /// A map from pre-encoded entries, emitted in ascending key order. Entries with the same
    /// key are a bug in the caller, which builds its entries field by field.
    pub fn map(&mut self, entries: Vec<(u16, Vec<u8>)>)
        requires
            keys_distinct(entries_view(entries@)),
        ensures
            final(self)@ == old(self)@ + map_bytes(entries_view(entries@)),
    {
        let ghost s = entries_view(entries@);
        let mut sorted: Vec<(u16, Vec<u8>)> = Vec::new();
        assert(entries_view(sorted@).to_set() =~= s.take(0).to_set());
        let mut i: usize = 0;
        while i < entries.len()
            invariant
                i <= entries.len(),
                s == entries_view(entries@),
                keys_distinct(s),
                in_key_order(entries_view(sorted@), s.take(i as int)),
            decreases entries.len() - i,
        {
            let k = entries[i].0;
            let mut p: usize = 0;
            while p < sorted.len() && sorted[p].0 < k
                invariant
                    p <= sorted.len(),
                    forall|j: int| 0 <= j < p ==> #[trigger] sorted@[j].0 < k,
                decreases sorted.len() - p,
            {
                p = p + 1;
            }
            let ghost pre = entries_view(sorted@);
            proof {
                if p < sorted.len() {
                    // `k` is new, so the entry at `p` lies strictly above it
                    assert(pre.to_set().contains(pre[p as int]));
                    assert(s.take(i as int).to_set().contains(pre[p as int]));
                    let q = choose|q: int| 0 <= q < s.take(i as int).len() && s.take(i as int)[q] == pre[p as int];
                    assert(s[q].0 != s[i as int].0);
                }
            }
            sorted.insert(p, (k, entries[i].1.clone()));
            let ghost post = entries_view(sorted@);
            assert(post =~= pre.take(p as int).push(s[i as int]) + pre.skip(p as int));
            let ghost t0 = s.take(i as int);
            let ghost t1 = s.take(i + 1);
            assert(t1 =~= t0.push(s[i as int]));
            assert(post.to_set() =~= t1.to_set()) by {
                assert forall|x| post.to_set().contains(x) <==> t1.to_set().contains(x) by {
                    if post.contains(x) {
                        let q = choose|q: int| 0 <= q < post.len() && post[q] == x;
                        if q < p {
                            assert(pre.contains(pre[q]));
                            assert(pre.to_set().contains(x));
                        } else if q > p {
                            assert(pre.contains(pre[q - 1]));
                            assert(pre.to_set().contains(x));
                        }
                        if x != s[i as int] {
                            let r = choose|r: int| 0 <= r < t0.len() && t0[r] == x;
                            assert(t1[r] == x);
                        } else {
                            assert(t1[i as int] == x);
                        }
                    }
                    if t1.contains(x) {
                        let r = choose|r: int| 0 <= r < t1.len() && t1[r] == x;
                        if r == i {
                            assert(post[p as int] == x);
                        } else {
                            assert(t0[r] == x);
                            assert(pre.to_set().contains(x));
                            let q = choose|q: int| 0 <= q < pre.len() && pre[q] == x;
                            if q < p {
                                assert(post[q] == x);
                            } else {
                                assert(post[q + 1] == x);
                            }
                        }
                    }
                }
            }
            assert(keys_ascending(post)) by {
                assert forall|a: int, b: int| 0 <= a < b < post.len() implies #[trigger] post[a].0 < #[trigger] post[b].0 by {
                    if b < p {
                    } else if b == p {
                    } else if a < p {
                        assert(pre[a].0 < pre[b - 1].0 || b - 1 == a);
                    } else if a == p {
                        assert(p < pre.len());
                        if b - 1 > p {
                            assert(pre[p as int].0 < pre[b - 1].0);
                        }
                    } else {
                        assert(pre[a - 1].0 < pre[b - 1].0);
                    }
                }
            }
            i = i + 1;
        }
        assert(s.take(entries.len() as int) =~= s);
        let ghost o = entries_view(sorted@);
        proof {
            lemma_key_order_unique(o, choose|o2: Seq<(u16, Seq<u8>)>| in_key_order(o2, s), s);
        }
        self.head(major::MAP, entries.len() as u64);
        let ghost start = self@;
        let mut j: usize = 0;
        while j < sorted.len()
            invariant
                j <= sorted.len(),
                o == entries_view(sorted@),
                self@ == start + entry_items(o.take(j as int)),
            decreases sorted.len() - j,
        {
            self.uint(sorted[j].0 as u64);
            self.raw(sorted[j].1.as_slice());
            assert(o.take(j + 1).drop_last() =~= o.take(j as int));
            j = j + 1;
        }
        assert(o.take(sorted.len() as int) =~= o);
    }
}


/// `u16` keys are totally ordered, as a `BTreeMap` needs.
proof fn lemma_u16_keys_ordered()
    ensures
        vstd::std_specs::btree::key_obeys_cmp_spec::<u16>(),
{
    broadcast use vstd::std_specs::btree::group_btree_axioms, vstd::laws_cmp::group_laws_cmp;

}

/// What walking an `Extra` map yields: each of its entries once, in ascending key order.
proof fn lemma_extra_walk(m: &Extra, v: Seq<(&u16, &Vec<u8>)>)
    requires
        v == vstd::std_specs::btree::spec_btree_map_iter(m).remaining(),
        vstd::std_specs::btree::increasing_seq(v.map_values(|kv: (&u16, &Vec<u8>)| *kv.0)),
    ensures
        v.len() == m@.dom().len(),
        forall|i: int| 0 <= i < v.len() ==> #[trigger] m@.contains_key(*v[i].0) && m@[*v[i].0] == *v[i].1,
        forall|i: int, j: int| 0 <= i < j < v.len() ==> *v[i].0 < *v[j].0,
{
    broadcast use vstd::std_specs::btree::group_btree_axioms, vstd::laws_cmp::group_laws_cmp;

    let keys = v.map_values(|kv: (&u16, &Vec<u8>)| *kv.0);
    assert(vstd::laws_cmp::obeys_cmp::<u16>());
    vstd::std_specs::btree::axiom_increasing_seq_meaning(keys);
    assert forall|i: int, j: int| 0 <= i < j < v.len() implies *v[i].0 < *v[j].0 by {
        assert(keys[i] == *v[i].0);
        assert(keys[j] == *v[j].0);
        assert(keys[i].cmp_spec(&keys[j]) is Less);
    }
}

/// `e` lists the entries of `m` in ascending key order, each value by its bytes.
pub open spec fn extra_in_order(e: Seq<(u16, Seq<u8>)>, m: Map<u16, Vec<u8>>) -> bool {
    &&& keys_ascending(e)
    &&& e.len() == m.dom().len()
    &&& forall|i: int| 0 <= i < e.len() ==> #[trigger] m.contains_key(e[i].0) && m[e[i].0]@ == e[i].1
}

/// The entries of a record's payload map, gathered field by field in whatever order is
/// convenient; the encoder sorts them.
#[derive(Debug)]
pub struct MapBuilder {
    entries: Vec<(u16, Vec<u8>)>,
}

impl View for MapBuilder {
    type V = Seq<(u16, Seq<u8>)>;

    closed spec fn view(&self) -> Seq<(u16, Seq<u8>)> {
        entries_view(self.entries@)
    }
}

impl Default for MapBuilder {
    fn default() -> (m: MapBuilder)
        ensures
            m@ == Seq::<(u16, Seq<u8>)>::empty(),
    {
        MapBuilder::new()
    }
}

impl MapBuilder {
    pub fn new() -> (m: MapBuilder)
        ensures
            m@ == Seq::<(u16, Seq<u8>)>::empty(),
    {
        let m = MapBuilder { entries: Vec::new() };
        assert(m@ =~= Seq::<(u16, Seq<u8>)>::empty());
        m
    }

    /// Adds a required field, given its encoded value.
    pub fn put(&mut self, key: u16, value: Vec<u8>)
        ensures
            final(self)@ == old(self)@.push((key, value@)),
    {
        self.entries.push((key, value));
        assert(self@ =~= old(self)@.push((key, value@)));
    }

    /// Adds a field only if present. An absent optional is omitted, never `null`.
    pub fn put_opt(&mut self, key: u16, value: Option<Vec<u8>>)
        ensures
            final(self)@ == (match value {
                Some(v) => old(self)@.push((key, v@)),
                None => old(self)@,
            }),
    {
        if let Some(v) = value {
            self.put(key, v);
        }
    }

    /// Adds a uid set only if it is not empty: an empty set and an absent one are the same
    /// thing, and omitting it keeps one encoding per value.
    pub fn put_uid_set(&mut self, key: u16, set: &Vec<Uid>)
        ensures
            final(self)@ == (if set@.len() == 0 {
                old(self)@
            } else {
                old(self)@.push((key, head_bytes(major::ARRAY, set@.len() as u64) + uid_items(set@)))
            }),
    {
        if set.len() > 0 {
            let mut e = Enc::new();
            e.uid_set(set);
            self.put(key, e.into_bytes());
        }
    }

    /// Adds a set of pre-encoded elements, laid out in ascending byte order, only if it is not
    /// empty.
    pub fn put_sorted_set(&mut self, key: u16, items: Vec<Vec<u8>>)
        requires
            items_distinct(items_view(items@)),
        ensures
            final(self)@ == (if items@.len() == 0 {
                old(self)@
            } else {
                old(self)@.push(
                    (key, head_bytes(major::ARRAY, items@.len() as u64) + concat_items(sorted_items(items_view(items@)))),
                )
            }),
    {
        if items.len() > 0 {
            let mut e = Enc::new();
            e.sorted_array(items);
            self.put(key, e.into_bytes());
        }
    }

    /// Adds a sequence in authored order, only if it is not empty.
    pub fn put_array(&mut self, key: u16, items: Vec<Vec<u8>>)
        ensures
            final(self)@ == (if items@.len() == 0 {
                old(self)@
            } else {
                old(self)@.push(
                    (
                        key,
                        head_bytes(major::ARRAY, items@.len() as u64) + concat_items(
                            Seq::new(items@.len(), |i: int| items@[i]@),
                        ),
                    ),
                )
            }),
    {
        if items.len() > 0 {
            let mut e = Enc::new();
            e.array(items);
            self.put(key, e.into_bytes());
        }
    }

    /// Adds the unknown keys read from a later minor version, verbatim.
    pub fn put_extra(&mut self, extra: &Extra)
        ensures
            exists|e: Seq<(u16, Seq<u8>)>| extra_in_order(e, extra@) && final(self)@ == old(self)@ + e,
    {
        broadcast use vstd::std_specs::btree::group_btree_axioms;

        proof {
            lemma_u16_keys_ordered();
        }
        let ghost start = self@;
        let iter = extra.iter();
        let ghost all = iter.remaining();
        proof {
            lemma_extra_walk(extra, all);
        }
        for kv in it: iter
            invariant
                self@.len() == start.len() + it.index(),
                self@.take(start.len() as int) == start,
                forall|i: int| 0 <= i < it.index() ==> self@[start.len() + i] == ((*it.seq()[i].0), (*it.seq()[i].1)@),
                it.seq() == all,
        {
            let (k, v) = kv;
            self.put(*k, v.clone());
        }
        let ghost e = self@.skip(start.len() as int);
        assert(self@ =~= start + e);
        assert(extra_in_order(e, extra@)) by {
            assert(e.len() == extra@.dom().len());
            assert forall|i: int| 0 <= i < e.len() implies #[trigger] extra@.contains_key(e[i].0) && extra@[e[i].0]@ == e[i].1 by {
                assert(e[i] == self@[start.len() + i]);
                assert(extra@.contains_key(*all[i].0));
            }
            assert forall|i: int, j: int| 0 <= i < j < e.len() implies #[trigger] e[i].0 < #[trigger] e[j].0 by {
                assert(e[i] == self@[start.len() + i]);
                assert(e[j] == self@[start.len() + j]);
                assert(*all[i].0 < *all[j].0);
            }
        }
    }

    /// Writes the map into `e`, in ascending key order.
    pub fn finish(self, e: &mut Enc)
        requires
            keys_distinct(self@),
        ensures
            final(e)@ == old(e)@ + map_bytes(self@),
    {
        e.map(self.entries);
    }

    /// The map's bytes.
    pub fn into_bytes(self) -> (b: Vec<u8>)
        requires
            keys_distinct(self@),
        ensures
            b@ == map_bytes(self@),
    {
        let mut e = Enc::new();
        let ghost v = self@;
        self.finish(&mut e);
        assert(e@ =~= map_bytes(v));
        e.into_bytes()
    }
}

} // verus!
