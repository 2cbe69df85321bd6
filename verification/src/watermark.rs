//! The watermark tracker: the multiset of read-versions of live
//! transactions. Its minimum bounds which committed-transaction records
//! may be garbage-collected.

use vstd::prelude::*;

verus! {

/// Occurrences of `v` in `s`.
pub open spec fn vcount(s: Seq<u64>, v: u64) -> nat
    decreases s.len(),
{
    if s.len() == 0 {
        0
    } else {
        (if s[0] == v {
            1nat
        } else {
            0nat
        }) + vcount(s.drop_first(), v)
    }
}

pub proof fn lemma_vcount_push(s: Seq<u64>, x: u64, v: u64)
    ensures
        vcount(s.push(x), v) == vcount(s, v) + (if x == v {
            1nat
        } else {
            0nat
        }),
    decreases s.len(),
{
    if s.len() == 0 {
        assert(s.push(x)[0] == x);
        assert(s.push(x).drop_first() =~= Seq::<u64>::empty());
        assert(vcount(Seq::<u64>::empty(), v) == 0);
    } else {
        lemma_vcount_push(s.drop_first(), x, v);
        assert(s.push(x)[0] == s[0]);
        assert(s.push(x).drop_first() =~= s.drop_first().push(x));
    }
}

pub proof fn lemma_vcount_concat(a: Seq<u64>, b: Seq<u64>, v: u64)
    ensures
        vcount(a + b, v) == vcount(a, v) + vcount(b, v),
    decreases a.len(),
{
    if a.len() == 0 {
        assert(a + b =~= b);
    } else {
        lemma_vcount_concat(a.drop_first(), b, v);
        assert((a + b)[0] == a[0]);
        assert((a + b).drop_first() =~= a.drop_first() + b);
    }
}

pub proof fn lemma_vcount_le_len(s: Seq<u64>, v: u64)
    ensures
        vcount(s, v) <= s.len(),
    decreases s.len(),
{
    if s.len() > 0 {
        lemma_vcount_le_len(s.drop_first(), v);
    }
}

/// A positive count means the value sits at some index, and conversely.
pub proof fn lemma_vcount_index(s: Seq<u64>, v: u64)
    ensures
        vcount(s, v) > 0 <==> exists|i: int| 0 <= i < s.len() && s[i] == v,
    decreases s.len(),
{
    if s.len() > 0 {
        lemma_vcount_index(s.drop_first(), v);
        if s[0] == v {
            assert(s[0] == v && 0 < s.len());
        } else {
            if vcount(s, v) > 0 {
                let j = choose|j: int| 0 <= j < s.drop_first().len() && s.drop_first()[j] == v;
                assert(s[j + 1] == v);
            }
            if exists|i: int| 0 <= i < s.len() && s[i] == v {
                let i = choose|i: int| 0 <= i < s.len() && s[i] == v;
                assert(s.drop_first()[i - 1] == v);
            }
        }
    }
}

pub struct Watermark {
    readers: Vec<u64>,
}

impl Watermark {
    /// How many live transactions hold this read-version.
    pub closed spec fn spec_count(&self, v: u64) -> nat {
        vcount(self.readers@, v)
    }

    pub closed spec fn spec_len(&self) -> nat {
        self.readers@.len()
    }

    /// Some live transaction holds this read-version.
    pub open spec fn present(&self, v: u64) -> bool {
        self.spec_count(v) > 0
    }

    pub fn new() -> (r: Watermark)
        ensures
            r.spec_len() == 0,
            forall|v: u64| #[trigger] r.spec_count(v) == 0,
    {
        let r = Watermark { readers: Vec::new() };
        proof {
            assert forall|v: u64| #[trigger] r.spec_count(v) == 0 by {
                assert(vcount(r.readers@, v) == 0);
            }
        }
        r
    }

    /// Tracks one more transaction reading at `v`.
    pub fn add(&mut self, v: u64)
        ensures
            final(self).spec_count(v) == old(self).spec_count(v) + 1,
            forall|w: u64| w != v ==> #[trigger] final(self).spec_count(w) == old(
                self,
            ).spec_count(w),
            final(self).spec_len() == old(self).spec_len() + 1,
    {
        self.readers.push(v);
        proof {
            assert forall|w: u64| true implies #[trigger] vcount(self.readers@, w) == vcount(
                old(self).readers@,
                w,
            ) + (if v == w {
                1nat
            } else {
                0nat
            }) by {
                lemma_vcount_push(old(self).readers@, v, w);
            }
        }
    }

    /// Stops tracking one transaction that read at `v`.
    pub fn remove(&mut self, v: u64)
        requires
            old(self).spec_count(v) > 0,
        ensures
            final(self).spec_count(v) == old(self).spec_count(v) - 1,
            forall|w: u64| w != v ==> #[trigger] final(self).spec_count(w) == old(
                self,
            ).spec_count(w),
            final(self).spec_len() == old(self).spec_len() - 1,
    {
        let n = self.readers.len();
        let mut i: usize = 0;
        proof {
            lemma_vcount_index(self.readers@, v);
        }
        while i < n
            invariant
                i <= n,
                n == self.readers@.len(),
                *self == *old(self),
                exists|j: int| i <= j < n && self.readers@[j] == v,
            decreases n - i,
        {
            if self.readers[i] == v {
                let ghost s = self.readers@;
                self.readers.remove(i);
                proof {
                    assert(self.readers@ =~= s.take(i as int) + s.skip(i + 1));
                    assert(s =~= s.take(i as int) + (seq![s[i as int]] + s.skip(i + 1)));
                    assert forall|w: u64| true implies vcount(s, w) == vcount(
                        s.take(i as int),
                        w,
                    ) + vcount(seq![s[i as int]], w) + vcount(s.skip(i + 1), w) by {
                        lemma_vcount_concat(s.take(i as int), seq![s[i as int]] + s.skip(i + 1),
                            w);
                        lemma_vcount_concat(seq![s[i as int]], s.skip(i + 1), w);
                    }
                    assert forall|w: u64| true implies vcount(self.readers@, w) == vcount(
                        s.take(i as int),
                        w,
                    ) + vcount(s.skip(i + 1), w) by {
                        lemma_vcount_concat(s.take(i as int), s.skip(i + 1), w);
                    }
                    assert forall|w: u64| true implies vcount(seq![v], w) == (if w == v {
                        1nat
                    } else {
                        0nat
                    }) by {
                        assert(seq![v].drop_first() =~= Seq::<u64>::empty());
                        assert(vcount(Seq::<u64>::empty(), w) == 0);
                        assert(seq![v][0] == v);
                    }
                }
                return ;
            }
            proof {
                let j = choose|j: int| i <= j < n && self.readers@[j] == v;
                assert(j != i);
            }
            i = i + 1;
        }
        proof {
            assert(false);
        }
    }

    /// No read-version occurs more often than there are live
    /// transactions.
    pub proof fn lemma_count_le_len(&self, v: u64)
        ensures
            self.spec_count(v) <= self.spec_len(),
    {
        lemma_vcount_le_len(self.readers@, v);
    }

    /// The least read-version held by a live transaction. Meaningful
    /// only when one is live.
    pub closed spec fn spec_min(&self) -> u64 {
        choose|m: u64| self.present(m) && (forall|v: u64| #[trigger] self.present(v) ==> m <= v)
    }

    /// A nonempty tracker has a least read-version, and it is `spec_min`.
    pub proof fn lemma_min_exists(&self)
        requires
            self.spec_len() > 0,
        ensures
            self.present(self.spec_min()),
            forall|v: u64| #[trigger] self.present(v) ==> self.spec_min() <= v,
    {
        let s = self.readers@;
        lemma_seq_min_exists(s);
        let m = choose|m: u64| #[trigger] is_seq_min(s, m);
        lemma_vcount_index(s, m);
        assert forall|v: u64| #[trigger] self.present(v) implies m <= v by {
            lemma_vcount_index(s, v);
        }
        assert(self.present(m) && (forall|v: u64| #[trigger] self.present(v) ==> m <= v));
    }

    /// The minimum read-version among live transactions, or None when no
    /// transaction is live.
    pub fn watermark(&self) -> (r: Option<u64>)
        ensures
            match r {
                Some(m) => self.spec_len() > 0 && m == self.spec_min() && self.present(m)
                    && forall|v: u64| #[trigger] self.present(v) ==> m <= v,
                None => self.spec_len() == 0 && forall|v: u64| !(#[trigger] self.present(v)),
            },
    {
        let n = self.readers.len();
        if n == 0 {
            proof {
                assert forall|v: u64| !(#[trigger] self.present(v)) by {
                    assert(vcount(self.readers@, v) == 0);
                }
            }
            return None;
        }
        let mut m = self.readers[0];
        let mut i: usize = 1;
        while i < n
            invariant
                1 <= i <= n,
                n == self.readers@.len(),
                exists|j: int| 0 <= j < i && self.readers@[j] == m,
                forall|j: int| 0 <= j < i ==> m <= #[trigger] self.readers@[j],
            decreases n - i,
        {
            if self.readers[i] < m {
                m = self.readers[i];
            }
            i = i + 1;
        }
        proof {
            lemma_vcount_index(self.readers@, m);
            assert forall|v: u64| #[trigger] self.present(v) implies m <= v by {
                lemma_vcount_index(self.readers@, v);
            }
            assert(self.present(m));
            self.lemma_min_exists();
            assert(self.present(self.spec_min()));
            assert(m <= self.spec_min());
            assert(self.spec_min() <= m);
        }
        Some(m)
    }
}

/// `m` is a least element of `s`.
spec fn is_seq_min(s: Seq<u64>, m: u64) -> bool {
    (exists|i: int| 0 <= i < s.len() && s[i] == m) && (forall|j: int| 0 <= j < s.len() ==> m
        <= #[trigger] s[j])
}

/// Every nonempty sequence has a least element.
proof fn lemma_seq_min_exists(s: Seq<u64>)
    requires
        s.len() > 0,
    ensures
        exists|m: u64| #[trigger] is_seq_min(s, m),
    decreases s.len(),
{
    if s.len() == 1 {
        assert(is_seq_min(s, s[0]));
    } else {
        lemma_seq_min_exists(s.drop_last());
        let m0 = choose|m: u64| #[trigger] is_seq_min(s.drop_last(), m);
        let m = if s.last() < m0 {
            s.last()
        } else {
            m0
        };
        assert forall|j: int| 0 <= j < s.len() implies m <= #[trigger] s[j] by {
            if j < s.len() - 1 {
                assert(s.drop_last()[j] == s[j]);
            }
        }
        let wi = choose|i: int| 0 <= i < s.drop_last().len() && s.drop_last()[i] == m0;
        assert(s[wi] == m0);
        assert(s[s.len() - 1] == s.last());
        assert(is_seq_min(s, m));
    }
}

} // verus!
