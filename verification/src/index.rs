//! The in-memory index: for each live key, the span of its newest record.
//! The entries are kept in the order of their keys, which are ordered as
//! strings are: byte by byte.
use vstd::prelude::*;
use vstd::utf8::{encode_utf8, encode_utf8_decode_utf8};
use crate::command::CommandPos;

verus! {

/// One key of the index with the span of its newest record.
#[derive(Debug, Clone)]
pub struct IndexEntry {
    pub key: String,
    pub pos: CommandPos,
}

/// Whether `a` comes before `b` in the order of byte sequences: at the first
/// place where they differ `a` has the smaller byte, or `a` ends there and
/// `b` goes on.
pub open spec fn lex_less(a: Seq<u8>, b: Seq<u8>) -> bool
    decreases a.len(),
{
    if b.len() == 0 {
        false
    } else if a.len() == 0 {
        true
    } else if a[0] != b[0] {
        a[0] < b[0]
    } else {
        lex_less(a.drop_first(), b.drop_first())
    }
}

/// Whether the key `a` comes before the key `b`.
pub open spec fn key_less(a: Seq<char>, b: Seq<char>) -> bool {
    lex_less(encode_utf8(a), encode_utf8(b))
}

/// Nothing comes before itself.
pub proof fn lemma_lex_irreflexive(a: Seq<u8>)
    ensures
        !lex_less(a, a),
    decreases a.len(),
{
    if a.len() > 0 {
        lemma_lex_irreflexive(a.drop_first());
    }
}

/// What comes before something that comes before a third comes before the
/// third.
pub proof fn lemma_lex_transitive(a: Seq<u8>, b: Seq<u8>, c: Seq<u8>)
    requires
        lex_less(a, b),
        lex_less(b, c),
    ensures
        lex_less(a, c),
    decreases a.len(),
{
    if a.len() > 0 && a[0] == b[0] && b[0] == c[0] {
        lemma_lex_transitive(a.drop_first(), b.drop_first(), c.drop_first());
    }
}

/// Of two different byte sequences one comes before the other.
pub proof fn lemma_lex_total(a: Seq<u8>, b: Seq<u8>)
    ensures
        a == b || lex_less(a, b) || lex_less(b, a),
    decreases a.len(),
{
    if a.len() > 0 && b.len() > 0 && a[0] == b[0] {
        lemma_lex_total(a.drop_first(), b.drop_first());
        if a.drop_first() == b.drop_first() {
            assert(a =~= seq![a[0]] + a.drop_first());
            assert(b =~= seq![b[0]] + b.drop_first());
        }
    } else if a.len() == 0 && b.len() == 0 {
        assert(a =~= b);
    }
}

/// The order of keys is a strict total order.
pub proof fn lemma_key_order(a: Seq<char>, b: Seq<char>, c: Seq<char>)
    ensures
        !key_less(a, a),
        key_less(a, b) && key_less(b, c) ==> key_less(a, c),
        a == b || key_less(a, b) || key_less(b, a),
{
    lemma_lex_irreflexive(encode_utf8(a));
    if key_less(a, b) && key_less(b, c) {
        lemma_lex_transitive(encode_utf8(a), encode_utf8(b), encode_utf8(c));
    }
    lemma_lex_total(encode_utf8(a), encode_utf8(b));
    encode_utf8_decode_utf8(a);
    encode_utf8_decode_utf8(b);
}

/// Whether the keys ascend strictly.
pub open spec fn keys_ascend(keys: Seq<Seq<char>>) -> bool {
    forall|i: int, j: int| 0 <= i < j < keys.len() ==> key_less(keys[i], keys[j])
}

/// There is one way only to put a set of keys in ascending order: two
/// ascending sequences with the same members are the same sequence.
pub proof fn lemma_ascending_unique(a: Seq<Seq<char>>, b: Seq<Seq<char>>)
    requires
        keys_ascend(a),
        keys_ascend(b),
        forall|k: Seq<char>| a.contains(k) <==> b.contains(k),
    ensures
        a == b,
    decreases a.len(),
{
    if a.len() == 0 {
        if b.len() > 0 {
            assert(b.contains(b[0]));
            assert(a.contains(b[0]));
        }
        assert(a =~= b);
    } else {
        let top = a.last();
        assert(a.contains(top));
        assert(b.contains(top));
        let j = choose|j: int| 0 <= j < b.len() && b[j] == top;
        let other = b.last();
        assert(b.contains(other));
        assert(a.contains(other));
        let i = choose|i: int| 0 <= i < a.len() && a[i] == other;
        lemma_key_order(top, other, top);
        assert(top == other) by {
            if i < a.len() - 1 {
                assert(key_less(a[i], a[a.len() - 1]));
            }
            if j < b.len() - 1 {
                assert(key_less(b[j], b[b.len() - 1]));
            }
        }
        let a0 = a.drop_last();
        let b0 = b.drop_last();
        assert forall|k: Seq<char>| a0.contains(k) <==> b0.contains(k) by {
            lemma_key_order(k, k, k);
            if a0.contains(k) {
                let m = choose|m: int| 0 <= m < a0.len() && a0[m] == k;
                assert(key_less(a[m], a[a.len() - 1]));
                assert(a.contains(k));
                assert(b.contains(k));
                let w = choose|w: int| 0 <= w < b.len() && b[w] == k;
                assert(b0[w] == k);
            }
            if b0.contains(k) {
                let m = choose|m: int| 0 <= m < b0.len() && b0[m] == k;
                assert(key_less(b[m], b[b.len() - 1]));
                assert(b.contains(k));
                assert(a.contains(k));
                let w = choose|w: int| 0 <= w < a.len() && a[w] == k;
                assert(a0[w] == k);
            }
        }
        lemma_ascending_unique(a0, b0);
        assert(a =~= a0.push(top));
        assert(b =~= b0.push(other));
    }
}

/// Whether `a` comes before `b`.
pub fn bytes_less(a: &[u8], b: &[u8]) -> (r: bool)
    ensures
        r == lex_less(a@, b@),
{
    let mut i: usize = 0;
    assert(a@.skip(0) =~= a@ && b@.skip(0) =~= b@);
    while i < a.len() && i < b.len()
        invariant
            i <= a@.len(),
            i <= b@.len(),
            lex_less(a@, b@) == lex_less(a@.skip(i as int), b@.skip(i as int)),
        decreases a@.len() - i,
    {
        if a[i] != b[i] {
            return a[i] < b[i];
        }
        proof {
            assert(a@.skip(i as int).drop_first() =~= a@.skip(i + 1));
            assert(b@.skip(i as int).drop_first() =~= b@.skip(i + 1));
        }
        i += 1;
    }
    i < b.len()
}

/// A mapping from keys to spans, kept in the order of the keys.
pub struct Index {
    entries: Vec<IndexEntry>,
}

impl Index {
    /// The keys ascend strictly, so that no key occurs twice.
    pub closed spec fn wf(&self) -> bool {
        &&& forall|i: int, j: int|
            0 <= i < j < self.entries@.len() ==> self.entries@[i].key@ != self.entries@[j].key@
        &&& forall|i: int, j: int|
            0 <= i < j < self.entries@.len() ==> key_less(
                self.entries@[i].key@,
                self.entries@[j].key@,
            )
    }

    /// The number of entries.
    pub closed spec fn spec_len(&self) -> nat {
        self.entries@.len()
    }

    /// The key of the `i`-th entry.
    pub closed spec fn key_of(&self, i: int) -> Seq<char> {
        self.entries@[i].key@
    }

    /// The span of the `i`-th entry.
    pub closed spec fn pos_of(&self, i: int) -> CommandPos {
        self.entries@[i].pos
    }

    /// The keys in their order.
    pub closed spec fn keys(&self) -> Seq<Seq<char>> {
        Seq::new(self.entries@.len(), |i: int| self.entries@[i].key@)
    }

    /// The index as a map from keys to spans.
    pub closed spec fn view(&self) -> Map<Seq<char>, CommandPos> {
        Map::new(
            |k: Seq<char>| exists|i: int| 0 <= i < self.entries@.len() && self.entries@[i].key@ == k,
            |k: Seq<char>|
                self.entries@[choose|i: int|
                    0 <= i < self.entries@.len() && self.entries@[i].key@ == k].pos,
        )
    }

    /// The entries and the map say the same: every entry is a binding of the
    /// map, every binding of the map is an entry, and no two entries share a
    /// key.
    pub proof fn lemma_entries(&self)
        requires
            self.wf(),
        ensures
            forall|i: int|
                0 <= i < self.spec_len() ==> self@.dom().contains(#[trigger] self.key_of(i))
                    && self@[self.key_of(i)] == self.pos_of(i),
            forall|k: Seq<char>| #[trigger]
                self@.dom().contains(k) ==> exists|i: int|
                    0 <= i < self.spec_len() && self.key_of(i) == k,
            forall|i: int, j: int|
                0 <= i < j < self.spec_len() ==> self.key_of(i) != self.key_of(j),
            forall|i: int, j: int|
                0 <= i < j < self.spec_len() ==> key_less(self.key_of(i), self.key_of(j)),
            self.keys().len() == self.spec_len(),
            forall|i: int| 0 <= i < self.spec_len() ==> self.keys()[i] == self.key_of(i),
    {
        assert forall|k: Seq<char>| #[trigger] self@.dom().contains(k) implies exists|i: int|
            0 <= i < self.spec_len() && self.key_of(i) == k by {
            let i = choose|i: int| 0 <= i < self.entries@.len() && self.entries@[i].key@ == k;
            assert(self.key_of(i) == k);
        }
    }

    /// An index without entries.
    pub fn new() -> (r: Index)
        ensures
            r.wf(),
            r@ == Map::<Seq<char>, CommandPos>::empty(),
            r.spec_len() == 0,
            r.keys() == Seq::<Seq<char>>::empty(),
    {
        let r = Index { entries: Vec::new() };
        assert(r.keys() =~= Seq::<Seq<char>>::empty());
        assert(r@ =~= Map::<Seq<char>, CommandPos>::empty());
        r
    }

    /// The number of entries.
    pub fn len(&self) -> (n: usize)
        ensures
            n == self.spec_len(),
    {
        self.entries.len()
    }

    /// The key of the `i`-th entry.
    pub fn key_at(&self, i: usize) -> (k: &String)
        requires
            i < self.spec_len(),
        ensures
            k@ == self.key_of(i as int),
    {
        &self.entries[i].key
    }

    /// The span of the `i`-th entry.
    pub fn pos_at(&self, i: usize) -> (p: CommandPos)
        requires
            i < self.spec_len(),
        ensures
            p == self.pos_of(i as int),
    {
        self.entries[i].pos
    }

    fn find(&self, key: &String) -> (r: Option<usize>)
        ensures
            match r {
                Some(i) => i < self.entries@.len() && self.entries@[i as int].key@ == key@,
                None => forall|i: int|
                    0 <= i < self.entries@.len() ==> self.entries@[i].key@ != key@,
            },
    {
        let mut i: usize = 0;
        while i < self.entries.len()
            invariant
                i <= self.entries@.len(),
                forall|j: int| 0 <= j < i ==> self.entries@[j].key@ != key@,
            decreases self.entries@.len() - i,
        {
            if self.entries[i].key == *key {
                return Some(i);
            }
            i += 1;
        }
        None
    }

    /// The span bound to `key`, if there is one.
    pub fn get(&self, key: &String) -> (r: Option<CommandPos>)
        requires
            self.wf(),
        ensures
            r == (if self@.dom().contains(key@) {
                Some(self@[key@])
            } else {
                None
            }),
    {
        match self.find(key) {
            Some(i) => {
                assert(self@.dom().contains(self.entries@[i as int].key@));
                Some(self.entries[i].pos)
            },
            None => None,
        }
    }

    /// Binds `key` to `pos` and returns the span that it was bound to before.
    pub fn insert(&mut self, key: String, pos: CommandPos) -> (r: Option<CommandPos>)
        requires
            old(self).wf(),
        ensures
            final(self).wf(),
            final(self)@ == old(self)@.insert(key@, pos),
            r == (if old(self)@.dom().contains(key@) {
                Some(old(self)@[key@])
            } else {
                None
            }),
            (forall|i: int| 0 <= i < old(self).keys().len() ==> key_less(old(self).keys()[i], key@))
                ==> final(self).keys() == old(self).keys().push(key@),
    {
        let ghost before = *self;
        let ghost k = key@;
        let found = self.find(&key);
        let mut place: usize = 0;
        let r = match found {
            Some(i) => {
                assert(before@.dom().contains(before.entries@[i as int].key@));
                let prior = self.entries[i].pos;
                proof {
                    assert(before.keys()[i as int] == k);
                    lemma_key_order(k, k, k);
                }
                self.entries.set(i, IndexEntry { key, pos });
                Some(prior)
            },
            None => {
                let mut at: usize = 0;
                while at < self.entries.len() && bytes_less(
                    self.entries[at].key.as_str().as_bytes(),
                    key.as_str().as_bytes(),
                )
                    invariant
                        *self == before,
                        at <= self.entries@.len(),
                        forall|i: int| 0 <= i < at ==> key_less(self.entries@[i].key@, key@),
                    decreases self.entries@.len() - at,
                {
                    at += 1;
                }
                proof {
                    assert forall|i: int| at <= i < before.entries@.len() implies key_less(
                        k,
                        before.entries@[i].key@,
                    ) by {
                        let first = before.entries@[at as int].key@;
                        lemma_key_order(first, k, before.entries@[i].key@);
                        lemma_key_order(k, first, before.entries@[i].key@);
                    }
                    assert forall|i: int| 0 <= i < before.entries@.len() implies k
                        != before.entries@[i].key@ by {}
                }
                self.entries.insert(at, IndexEntry { key, pos });
                place = at;
                proof {
                    let after = self.entries@;
                    if forall|i: int| 0 <= i < before.keys().len() ==> key_less(before.keys()[i], k) {
                        if at < before.entries@.len() {
                            assert(key_less(before.keys()[at as int], k));
                            lemma_key_order(k, before.entries@[at as int].key@, k);
                            lemma_key_order(k, k, k);
                        }
                        assert(self.keys() =~= before.keys().push(k));
                    }
                    assert forall|i: int, j: int| 0 <= i < j < after.len() implies after[i].key@
                        != after[j].key@ && key_less(after[i].key@, after[j].key@) by {
                        let pi = if i < at { i } else { i - 1 };
                        let pj = if j < at { j } else { j - 1 };
                        if i != at && j != at {
                            assert(before.entries@[pi].key@ != before.entries@[pj].key@);
                            assert(key_less(before.entries@[pi].key@, before.entries@[pj].key@));
                        } else if i == at {
                            assert(key_less(k, before.entries@[pj].key@));
                            lemma_key_order(k, k, k);
                        } else {
                            assert(key_less(before.entries@[pi].key@, k));
                            lemma_key_order(k, k, k);
                        }
                    }
                }
                None
            },
        };
        proof {
            let n = self.entries@.len() as int;
            let shift = |i: int| if found is Some || i < place { i } else { i + 1 };
            let unshift = |i: int| if found is Some || i < place { i } else { i - 1 };
            assert forall|q: Seq<char>| #[trigger]
                self@.dom().contains(q) == before@.insert(k, pos).dom().contains(q) by {
                if self@.dom().contains(q) {
                    let i = choose|i: int| 0 <= i < n && self.entries@[i].key@ == q;
                    if q != k {
                        assert(before.entries@[unshift(i)].key@ == q);
                    }
                }
                if before@.insert(k, pos).dom().contains(q) {
                    if q == k {
                        let w = if found is Some { found->0 as int } else { place as int };
                        assert(self.entries@[w].key@ == q);
                    } else {
                        let i = choose|i: int|
                            0 <= i < before.entries@.len() && before.entries@[i].key@ == q;
                        assert(self.entries@[shift(i)].key@ == q);
                    }
                }
            }
            assert forall|q: Seq<char>| #[trigger]
                self@.dom().contains(q) implies self@[q] == before@.insert(k, pos)[q] by {
                let i = choose|i: int| 0 <= i < n && self.entries@[i].key@ == q;
                if q != k {
                    let j = choose|j: int|
                        0 <= j < before.entries@.len() && before.entries@[j].key@ == q;
                    assert(before.entries@[unshift(i)].key@ == q);
                    assert(unshift(i) == j);
                } else {
                    let w = if found is Some { found->0 as int } else { place as int };
                    assert(self.entries@[w].key@ == k);
                    assert(i == w);
                }
            }
            assert(self@ =~= before@.insert(k, pos));
        }
        r
    }

    /// Removes the binding of `key` and returns the span that it was bound to.
    pub fn remove(&mut self, key: &String) -> (r: Option<CommandPos>)
        requires
            old(self).wf(),
        ensures
            final(self).wf(),
            final(self)@ == old(self)@.remove(key@),
            r == (if old(self)@.dom().contains(key@) {
                Some(old(self)@[key@])
            } else {
                None
            }),
    {
        let ghost before = *self;
        let ghost k = key@;
        match self.find(key) {
            Some(i) => {
                assert(before@.dom().contains(before.entries@[i as int].key@));
                let gone = self.entries.remove(i);
                proof {
                    let n = self.entries@.len() as int;
                    let at = i as int;
                    assert forall|q: Seq<char>| #[trigger]
                        self@.dom().contains(q) == before@.remove(k).dom().contains(q) by {
                        if self@.dom().contains(q) {
                            let j = choose|j: int| 0 <= j < n && self.entries@[j].key@ == q;
                            let w = if j < at { j } else { j + 1 };
                            assert(before.entries@[w].key@ == q);
                        }
                        if before@.remove(k).dom().contains(q) {
                            let j = choose|j: int|
                                0 <= j < before.entries@.len() && before.entries@[j].key@ == q;
                            let w = if j < at { j } else { j - 1 };
                            assert(self.entries@[w].key@ == q);
                        }
                    }
                    assert forall|q: Seq<char>| #[trigger]
                        self@.dom().contains(q) implies self@[q] == before@.remove(k)[q] by {
                        let j = choose|j: int| 0 <= j < n && self.entries@[j].key@ == q;
                        let w = if j < at { j } else { j + 1 };
                        assert(before.entries@[w].key@ == q);
                        let c = choose|c: int|
                            0 <= c < before.entries@.len() && before.entries@[c].key@ == q;
                        assert(c == w);
                    }
                    assert(self@ =~= before@.remove(k));
                }
                Some(gone.pos)
            },
            None => {
                assert(self@ =~= before@.remove(k));
                None
            },
        }
    }
}

} // verus!
