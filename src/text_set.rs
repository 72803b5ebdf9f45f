//! A set of strings kept sorted by their UTF-8 bytes, so that membership is
//! decided by binary search.

use vstd::prelude::*;
use vstd::utf8::{encode_utf8, encode_utf8_decode_utf8};

verus! {

/// The strict lexicographic order on byte sequences.
pub open spec fn lex_lt(a: Seq<u8>, b: Seq<u8>) -> bool
    decreases a.len(),
{
    if b.len() == 0 {
        false
    } else if a.len() == 0 {
        true
    } else if a[0] != b[0] {
        a[0] < b[0]
    } else {
        lex_lt(a.drop_first(), b.drop_first())
    }
}

proof fn lemma_lex_trans(a: Seq<u8>, b: Seq<u8>, c: Seq<u8>)
    requires
        lex_lt(a, b),
        lex_lt(b, c),
    ensures
        lex_lt(a, c),
    decreases a.len(),
{
    if a.len() > 0 && a[0] == b[0] && b[0] == c[0] {
        lemma_lex_trans(a.drop_first(), b.drop_first(), c.drop_first());
    }
}

proof fn lemma_lex_irreflexive(a: Seq<u8>)
    ensures
        !lex_lt(a, a),
    decreases a.len(),
{
    if a.len() > 0 {
        lemma_lex_irreflexive(a.drop_first());
    }
}

proof fn lemma_lex_skip(a: Seq<u8>, b: Seq<u8>, i: int)
    requires
        0 <= i <= a.len(),
        i <= b.len(),
        a.subrange(0, i) == b.subrange(0, i),
    ensures
        lex_lt(a, b) == lex_lt(a.subrange(i, a.len() as int), b.subrange(i, b.len() as int)),
    decreases i,
{
    if i > 0 {
        assert(a[0] == a.subrange(0, i)[0]);
        assert(b[0] == b.subrange(0, i)[0]);
        assert(a.drop_first().subrange(0, i - 1) =~= a.subrange(0, i).drop_first());
        assert(b.drop_first().subrange(0, i - 1) =~= b.subrange(0, i).drop_first());
        lemma_lex_skip(a.drop_first(), b.drop_first(), i - 1);
        assert(a.drop_first().subrange(i - 1, a.len() - 1) =~= a.subrange(i, a.len() as int));
        assert(b.drop_first().subrange(i - 1, b.len() - 1) =~= b.subrange(i, b.len() as int));
    } else {
        assert(a.subrange(0, a.len() as int) =~= a);
        assert(b.subrange(0, b.len() as int) =~= b);
    }
}

/// Two texts with the same UTF-8 encoding are the same text.
pub(crate) proof fn lemma_same_bytes_same_text(a: Seq<char>, b: Seq<char>)
    requires
        encode_utf8(a) == encode_utf8(b),
    ensures
        a == b,
{
    encode_utf8_decode_utf8(a);
    encode_utf8_decode_utf8(b);
}

/// Compares two byte sequences: negative, zero or positive as `a` comes
/// before, equals or comes after `b`.
pub(crate) fn compare_bytes(a: &[u8], b: &[u8]) -> (r: i8)
    ensures
        r < 0 <==> lex_lt(a@, b@),
        r == 0 <==> a@ == b@,
        r > 0 <==> lex_lt(b@, a@),
{
    let mut i: usize = 0;
    while i < a.len() && i < b.len() && a[i] == b[i]
        invariant
            i <= a.len(),
            i <= b.len(),
            a@.subrange(0, i as int) == b@.subrange(0, i as int),
        decreases a.len() - i,
    {
        assert(a@.subrange(0, i + 1) =~= a@.subrange(0, i as int).push(a@[i as int]));
        assert(b@.subrange(0, i + 1) =~= b@.subrange(0, i as int).push(b@[i as int]));
        i = i + 1;
    }
    proof {
        lemma_lex_skip(a@, b@, i as int);
        lemma_lex_skip(b@, a@, i as int);
        lemma_lex_irreflexive(a@);
        lemma_lex_irreflexive(b@);
        let ra = a@.subrange(i as int, a.len() as int);
        let rb = b@.subrange(i as int, b.len() as int);
        if i < a.len() && i < b.len() {
            assert(ra[0] == a@[i as int] && rb[0] == b@[i as int]);
            assert(a@ != b@) by {
                if a@ == b@ {
                    assert(a@[i as int] == b@[i as int]);
                }
            }
        } else if i == a.len() && i == b.len() {
            assert(a@ =~= a@.subrange(0, i as int));
            assert(b@ =~= b@.subrange(0, i as int));
        } else {
            assert(a@.len() != b@.len());
        }
    }
    if i < a.len() && i < b.len() {
        if a[i] < b[i] {
            -1
        } else {
            1
        }
    } else if i < a.len() {
        1
    } else if i < b.len() {
        -1
    } else {
        0
    }
}

/// A set of strings, kept sorted by their UTF-8 bytes without repeats.
pub struct TextSet {
    items: Vec<String>,
}

impl TextSet {
    /// The strings' UTF-8 bytes strictly ascend.
    pub closed spec fn wf(&self) -> bool {
        forall|i: int, j: int|
            0 <= i < j < self.items@.len() ==> lex_lt(
                encode_utf8(#[trigger] self.items@[i]@),
                encode_utf8(#[trigger] self.items@[j]@),
            )
    }

    /// The texts in the set.
    pub closed spec fn view(&self) -> Set<Seq<char>> {
        Set::new(|t: Seq<char>| exists|i: int| 0 <= i < self.items@.len() && self.items@[i]@ == t)
    }

    pub fn new() -> (r: TextSet)
        ensures
            r.wf(),
            r.view() == Set::<Seq<char>>::empty(),
    {
        let r = TextSet { items: Vec::new() };
        assert(r.view() =~= Set::<Seq<char>>::empty());
        r
    }

    /// The place of `t` in the order: every string before it is smaller,
    /// every one from it on is not, and `found` tells whether the one there
    /// is `t`.
    fn search(&self, t: &str) -> (r: (usize, bool))
        requires
            self.wf(),
        ensures
            r.0 <= self.items@.len(),
            forall|i: int| 0 <= i < r.0 ==> lex_lt(encode_utf8(self.items@[i]@), encode_utf8(t@)),
            forall|i: int|
                r.0 <= i < self.items@.len() ==> !lex_lt(
                    encode_utf8(self.items@[i]@),
                    encode_utf8(t@),
                ),
            r.1 <==> self.view().contains(t@),
            r.1 ==> r.0 < self.items@.len() && self.items@[r.0 as int]@ == t@,
            !r.1 ==> forall|i: int|
                r.0 <= i < self.items@.len() ==> lex_lt(
                    encode_utf8(t@),
                    encode_utf8(self.items@[i]@),
                ),
    {
        let tb = t.as_bytes();
        let ghost key = encode_utf8(t@);
        let mut lo: usize = 0;
        let mut hi: usize = self.items.len();
        while lo < hi
            invariant
                self.wf(),
                tb@ == key,
                key == encode_utf8(t@),
                lo <= hi <= self.items@.len(),
                forall|i: int| 0 <= i < lo ==> lex_lt(encode_utf8(self.items@[i]@), key),
                forall|i: int|
                    hi <= i < self.items@.len() ==> !lex_lt(encode_utf8(self.items@[i]@), key),
            decreases hi - lo,
        {
            let mid = lo + (hi - lo) / 2;
            let c = compare_bytes(self.items[mid].as_str().as_bytes(), tb);
            if c < 0 {
                proof {
                    assert forall|i: int| 0 <= i <= mid implies lex_lt(
                        encode_utf8(self.items@[i]@),
                        key,
                    ) by {
                        if i < mid {
                            lemma_lex_trans(
                                encode_utf8(self.items@[i]@),
                                encode_utf8(self.items@[mid as int]@),
                                key,
                            );
                        }
                    }
                }
                lo = mid + 1;
            } else {
                proof {
                    assert forall|i: int| mid <= i < self.items@.len() implies !lex_lt(
                        encode_utf8(self.items@[i]@),
                        key,
                    ) by {
                        if i > mid && lex_lt(encode_utf8(self.items@[i]@), key) {
                            lemma_lex_trans(
                                encode_utf8(self.items@[mid as int]@),
                                encode_utf8(self.items@[i]@),
                                key,
                            );
                        }
                    }
                }
                hi = mid;
            }
        }
        let found = lo < self.items.len() && compare_bytes(
            self.items[lo].as_str().as_bytes(),
            tb,
        ) == 0;
        proof {
            if found {
                lemma_same_bytes_same_text(self.items@[lo as int]@, t@);
                assert(self.view().contains(t@));
            } else {
                if lo < self.items@.len() {
                    assert(lex_lt(key, encode_utf8(self.items@[lo as int]@)));
                }
                assert forall|i: int| lo <= i < self.items@.len() implies lex_lt(
                    key,
                    encode_utf8(self.items@[i]@),
                ) by {
                    if i > lo {
                        lemma_lex_trans(
                            key,
                            encode_utf8(self.items@[lo as int]@),
                            encode_utf8(self.items@[i]@),
                        );
                    }
                }
                if self.view().contains(t@) {
                    let i = choose|i: int| 0 <= i < self.items@.len() && self.items@[i]@ == t@;
                    lemma_lex_irreflexive(key);
                }
            }
        }
        (lo, found)
    }

    /// Whether the set holds `t`.
    pub fn contains(&self, t: &str) -> (r: bool)
        requires
            self.wf(),
        ensures
            r == self.view().contains(t@),
    {
        self.search(t).1
    }

    /// Adds `t`; returns whether it was not in the set before.
    pub fn insert(&mut self, t: &str) -> (r: bool)
        requires
            old(self).wf(),
        ensures
            final(self).wf(),
            r == !old(self).view().contains(t@),
            final(self).view() == old(self).view().insert(t@),
    {
        let (pos, found) = self.search(t);
        if found {
            assert(self.view() =~= self.view().insert(t@));
            return false;
        }
        let ghost before = self.items@;
        self.items.insert(pos, String::from_str(t));
        assert(self.items@ =~= before.subrange(0, pos as int).push(self.items@[pos as int]) + before.subrange(pos as int, before.len() as int));
        assert forall|i: int, j: int|
            0 <= i < j < self.items@.len() implies lex_lt(
            encode_utf8(#[trigger] self.items@[i]@),
            encode_utf8(#[trigger] self.items@[j]@),
        ) by {
            if i < pos && j > pos {
                assert(self.items@[i] == before[i]);
                assert(self.items@[j] == before[j - 1]);
                assert(i < j - 1 || i == j - 1);
            } else if i < pos && j < pos {
                assert(self.items@[i] == before[i] && self.items@[j] == before[j]);
            } else if i > pos {
                assert(self.items@[i] == before[i - 1] && self.items@[j] == before[j - 1]);
            } else if i < pos {
                assert(self.items@[i] == before[i]);
            } else {
                assert(self.items@[j] == before[j - 1]);
            }
        }
        assert forall|s: Seq<char>| #[trigger] self.view().contains(s) <==> (old(self).view().contains(s) || s == t@) by {
            if old(self).view().contains(s) {
                let i = choose|i: int| 0 <= i < before.len() && before[i]@ == s;
                if i < pos {
                    assert(self.items@[i] == before[i]);
                } else {
                    assert(self.items@[i + 1] == before[i]);
                }
            }
            if s == t@ {
                assert(self.items@[pos as int]@ == t@);
            }
            if self.view().contains(s) {
                let i = choose|i: int| 0 <= i < self.items@.len() && self.items@[i]@ == s;
                if i < pos {
                    assert(self.items@[i] == before[i]);
                } else if i > pos {
                    assert(self.items@[i] == before[i - 1]);
                }
            }
        }
        assert(self.view() =~= old(self).view().insert(t@));
        true
    }
}

} // verus!
