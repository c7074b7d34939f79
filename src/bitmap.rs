use vstd::prelude::*;

verus! {

/// Number of bits held by one backing word.
pub const WORD_BITS: usize = 64;

/// Whether bit `b` of `w` is set.
pub open spec fn word_bit(w: u64, b: u64) -> bool {
    (w >> b) & 1u64 == 1u64
}

/// Number of set bits in `s`.
pub open spec fn count_ones(s: Seq<bool>) -> nat
    decreases s.len(),
{
    if s.len() == 0 {
        0
    } else {
        count_ones(s.drop_last()) + if s.last() { 1nat } else { 0nat }
    }
}

/// Whether every bit of `s` in `[start, end)` is unset and the range lies in `s`.
pub open spec fn all_zeros(s: Seq<bool>, start: int, end: int) -> bool {
    &&& 0 <= start <= end <= s.len()
    &&& forall|i: int| start <= i < end ==> !s[i]
}

/// Whether `s` holds a run of `k` unset bits starting at `t`.
pub open spec fn zero_run(s: Seq<bool>, t: int, k: int) -> bool {
    all_zeros(s, t, t + k)
}

/// Whether every bit of `s` in `[start, end)` is set and the range lies in `s`.
pub open spec fn all_ones(s: Seq<bool>, start: int, end: int) -> bool {
    &&& 0 <= start <= end <= s.len()
    &&& forall|i: int| start <= i < end ==> s[i]
}

/// `s` with every bit in `[start, end)` replaced by `v`.
pub open spec fn fill(s: Seq<bool>, start: int, end: int, v: bool) -> Seq<bool> {
    Seq::new(s.len(), |i: int| if start <= i < end { v } else { s[i] })
}

/// A fixed-capacity sequence of bits packed into 64-bit words.
pub struct Bitmap {
    words: Vec<u64>,
    len: usize,
}

/// Setting or clearing one entry changes the count of set bits by at most one.
pub proof fn lemma_count_update(s: Seq<bool>, i: int, v: bool)
    requires
        0 <= i < s.len(),
    ensures
        count_ones(s.update(i, v)) + (if s[i] { 1int } else { 0int }) == count_ones(s) + (if v {
            1int
        } else {
            0int
        }),
    decreases s.len(),
{
    let u = s.update(i, v);
    if i == s.len() - 1 {
        assert(u.drop_last() =~= s.drop_last());
    } else {
        assert(u.drop_last() =~= s.drop_last().update(i, v));
        lemma_count_update(s.drop_last(), i, v);
    }
}

/// A bit sequence has no more set bits than entries.
pub proof fn lemma_count_bound(s: Seq<bool>)
    ensures
        count_ones(s) <= s.len(),
    decreases s.len(),
{
    if s.len() > 0 {
        lemma_count_bound(s.drop_last());
    }
}

/// A sequence whose entries all equal `v` has `len` set bits when `v` holds and none otherwise.
pub proof fn lemma_count_constant(s: Seq<bool>, v: bool)
    requires
        forall|i: int| 0 <= i < s.len() ==> s[i] == v,
    ensures
        count_ones(s) == if v { s.len() } else { 0 },
    decreases s.len(),
{
    if s.len() > 0 {
        lemma_count_constant(s.drop_last(), v);
    }
}

/// Filling a range whose bits all differ from `v` changes the count of set bits by its length.
pub proof fn lemma_count_fill(s: Seq<bool>, a: int, b: int, v: bool)
    requires
        0 <= a <= b <= s.len(),
        forall|j: int| a <= j < b ==> s[j] != v,
    ensures
        count_ones(fill(s, a, b, v)) == if v {
            count_ones(s) + (b - a)
        } else {
            count_ones(s) - (b - a)
        },
    decreases b - a,
{
    if a < b {
        lemma_count_fill(s, a, b - 1, v);
        let f = fill(s, a, b - 1, v);
        assert(fill(s, a, b, v) =~= f.update(b - 1, v));
        lemma_count_update(f, b - 1, v);
    } else {
        assert(fill(s, a, b, v) =~= s);
    }
}

/// A run of `k` unset bits leaves room for at most `len - k` set bits.
pub proof fn lemma_zero_run_bounds_count(s: Seq<bool>, t: int, k: int)
    requires
        zero_run(s, t, k),
    ensures
        count_ones(s) + k <= s.len(),
    decreases s.len(),
{
    if s.len() == 0 {
    } else if t + k < s.len() {
        lemma_zero_run_bounds_count(s.drop_last(), t, k);
    } else if k == 0 {
        lemma_count_bound(s);
    } else {
        assert(!s[s.len() - 1]);
        assert(zero_run(s.drop_last(), t, k - 1));
        lemma_zero_run_bounds_count(s.drop_last(), t, k - 1);
    }
}

proof fn lemma_uniform_word(c: u64)
    requires
        c < 64,
    ensures
        (0xffff_ffff_ffff_ffffu64 >> c) & 1u64 == 1u64,
        (0u64 >> c) & 1u64 == 0u64,
{
    assert((0xffff_ffff_ffff_ffffu64 >> c) & 1u64 == 1u64) by (bit_vector)
        requires
            c < 64,
    ;
    lemma_zero_word(c);
}

proof fn lemma_word_index(i: int, j: int)
    requires
        0 <= i,
        i % 64 == 0,
        0 <= j,
    ensures
        (j / 64 == i / 64) <==> (i <= j < i + 64),
        i <= j < i + 64 ==> j % 64 == j - i,
{
    assert((j / 64 == i / 64) <==> (i <= j < i + 64)) by (nonlinear_arith)
        requires
            0 <= i,
            i % 64 == 0,
            0 <= j,
    ;
    assert(i <= j < i + 64 ==> j % 64 == j - i) by (nonlinear_arith)
        requires
            0 <= i,
            i % 64 == 0,
            0 <= j,
    ;
}

proof fn lemma_bit_set(w: u64, b: u64, c: u64)
    requires
        b < 64,
        c < 64,
    ensures
        ((w | (1u64 << b)) >> c) & 1u64 == if c == b { 1u64 } else { (w >> c) & 1u64 },
{
    assert(((w | (1u64 << b)) >> c) & 1u64 == if c == b { 1u64 } else { (w >> c) & 1u64 })
        by (bit_vector)
        requires
            b < 64,
            c < 64,
    ;
}

proof fn lemma_bit_clear(w: u64, b: u64, c: u64)
    requires
        b < 64,
        c < 64,
    ensures
        ((w & !(1u64 << b)) >> c) & 1u64 == if c == b { 0u64 } else { (w >> c) & 1u64 },
{
    assert(((w & !(1u64 << b)) >> c) & 1u64 == if c == b { 0u64 } else { (w >> c) & 1u64 })
        by (bit_vector)
        requires
            b < 64,
            c < 64,
    ;
}

proof fn lemma_zero_word(c: u64)
    requires
        c < 64,
    ensures
        (0u64 >> c) & 1u64 == 0u64,
{
    assert((0u64 >> c) & 1u64 == 0u64) by (bit_vector);
}

impl View for Bitmap {
    type V = Seq<bool>;

    closed spec fn view(&self) -> Seq<bool> {
        Seq::new(
            self.len as nat,
            |i: int| word_bit(self.words@[i / WORD_BITS as int], (i % WORD_BITS as int) as u64),
        )
    }
}

impl Bitmap {
    /// The backing words cover every bit of the capacity.
    pub closed spec fn wf(&self) -> bool {
        self.len <= self.words.len() * WORD_BITS
    }

    /// The capacity always fits in a machine word.
    pub proof fn lemma_len_fits(&self)
        ensures
            self@.len() <= usize::MAX,
    {
    }

    /// A bitmap with no capacity: the placeholder before real backing storage exists.
    pub fn empty() -> (r: Bitmap)
        ensures
            r.wf(),
            r@ == Seq::<bool>::empty(),
    {
        let r = Bitmap { words: Vec::new(), len: 0 };
        assert(r@ =~= Seq::<bool>::empty());
        r
    }

    /// A bitmap of `len` bits, all unset.
    pub fn new(len: usize) -> (r: Bitmap)
        ensures
            r.wf(),
            r@ == Seq::new(len as nat, |i: int| false),
    {
        let n: usize = len / WORD_BITS + if len % WORD_BITS != 0 { 1usize } else { 0usize };
        let mut words: Vec<u64> = Vec::new();
        while words.len() < n
            invariant
                words.len() <= n,
                forall|j: int| 0 <= j < words.len() ==> words@[j] == 0u64,
            decreases n - words.len(),
        {
            words.push(0u64);
        }
        let r = Bitmap { words, len };
        assert(len <= n * WORD_BITS) by (nonlinear_arith)
            requires
                n == len / 64 + if len % 64 != 0 { 1int } else { 0int },
        ;
        assert forall|i: int| 0 <= i < len implies !r@[i] by {
            assert(i / 64 < n) by (nonlinear_arith)
                requires
                    0 <= i < len,
                    len <= n * 64,
            ;
            lemma_zero_word((i % 64) as u64);
        }
        assert(r@ =~= Seq::new(len as nat, |i: int| false));
        r
    }

    /// Number of bits held.
    pub fn len(&self) -> (r: usize)
        ensures
            r == self@.len(),
    {
        self.len
    }

    /// Whether bit `i` is set.
    pub fn get(&self, i: usize) -> (r: bool)
        requires
            self.wf(),
            i < self@.len(),
        ensures
            r == self@[i as int],
    {
        proof {
            assert(i / 64 < self.words.len()) by (nonlinear_arith)
                requires
                    i < self.len,
                    self.len <= self.words.len() * 64,
            ;
        }
        let w = self.words[i / WORD_BITS];
        (w >> ((i % WORD_BITS) as u64)) & 1u64 == 1u64
    }

    fn set_bit(&mut self, i: usize, v: bool)
        requires
            old(self).wf(),
            i < old(self)@.len(),
        ensures
            final(self).wf(),
            final(self)@ == old(self)@.update(i as int, v),
    {
        proof {
            assert(i / 64 < self.words.len()) by (nonlinear_arith)
                requires
                    i < self.len,
                    self.len <= self.words.len() * 64,
            ;
        }
        let ghost prev = self@;
        let wi = i / WORD_BITS;
        let b = (i % WORD_BITS) as u64;
        let w = self.words[wi];
        let nw = if v { w | (1u64 << b) } else { w & !(1u64 << b) };
        self.words.set(wi, nw);
        proof {
            assert forall|j: int| 0 <= j < self.len implies self@[j] == prev.update(
                i as int,
                v,
            )[j] by {
                assert(j / 64 < self.words.len()) by (nonlinear_arith)
                    requires
                        0 <= j < self.len,
                        self.len <= self.words.len() * 64,
                ;
                if j / 64 == wi as int {
                    let c = (j % 64) as u64;
                    if v {
                        lemma_bit_set(w, b, c);
                    } else {
                        lemma_bit_clear(w, b, c);
                    }
                    assert(j == i <==> c == b);
                }
            }
            assert(self@ =~= prev.update(i as int, v));
        }
    }
}

impl Bitmap {
    /// Whether the aligned word holding bits `[i, i + 64)` has every bit equal to `v`.
    fn word_uniform(&self, i: usize, v: bool) -> (r: bool)
        requires
            self.wf(),
            i % WORD_BITS == 0,
            i + WORD_BITS <= self@.len(),
        ensures
            r ==> forall|j: int| i <= j < i + WORD_BITS ==> self@[j] == v,
    {
        proof {
            lemma_word_index(i as int, i as int);
            assert(i / 64 < self.words.len()) by (nonlinear_arith)
                requires
                    i < self.len,
                    self.len <= self.words.len() * 64,
            ;
        }
        let w = self.words[i / WORD_BITS];
        let r = if v { w == 0xffff_ffff_ffff_ffffu64 } else { w == 0u64 };
        proof {
            if r {
                assert forall|j: int| i <= j < i + WORD_BITS implies self@[j] == v by {
                    lemma_word_index(i as int, j);
                    lemma_uniform_word((j - i) as u64);
                }
            }
        }
        r
    }

    /// Sets every bit of the aligned word holding bits `[i, i + 64)` to `v`.
    fn set_word(&mut self, i: usize, v: bool)
        requires
            old(self).wf(),
            i % WORD_BITS == 0,
            i + WORD_BITS <= old(self)@.len(),
        ensures
            final(self).wf(),
            final(self)@ == fill(old(self)@, i as int, i + WORD_BITS, v),
    {
        proof {
            lemma_word_index(i as int, i as int);
            assert(i / 64 < self.words.len()) by (nonlinear_arith)
                requires
                    i < self.len,
                    self.len <= self.words.len() * 64,
            ;
        }
        let ghost prev = self@;
        let wi = i / WORD_BITS;
        let w = if v { 0xffff_ffff_ffff_ffffu64 } else { 0u64 };
        self.words.set(wi, w);
        proof {
            assert forall|j: int| 0 <= j < self.len implies self@[j] == fill(
                prev,
                i as int,
                i + WORD_BITS,
                v,
            )[j] by {
                lemma_word_index(i as int, j);
                if i <= j < i + 64 {
                    lemma_uniform_word((j - i) as u64);
                }
            }
            assert(self@ =~= fill(prev, i as int, i + WORD_BITS, v));
        }
    }

    fn set_range(&mut self, start: usize, end: usize, v: bool) -> (r: usize)
        requires
            old(self).wf(),
            start <= end <= old(self)@.len(),
        ensures
            final(self).wf(),
            final(self)@ == fill(old(self)@, start as int, end as int, v),
            v ==> count_ones(final(self)@) == count_ones(old(self)@) + r,
            !v ==> count_ones(final(self)@) + r == count_ones(old(self)@),
            r <= end - start,
            v && all_zeros(old(self)@, start as int, end as int) ==> r == end - start,
            !v && all_ones(old(self)@, start as int, end as int) ==> r == end - start,
    {
        let ghost orig = self@;
        let mut i: usize = start;
        let mut r: usize = 0;
        while i < end
            invariant
                self.wf(),
                start <= i <= end,
                end <= orig.len(),
                self@ == fill(orig, start as int, i as int, v),
                v ==> count_ones(self@) == count_ones(orig) + r,
                !v ==> count_ones(self@) + r == count_ones(orig),
                r <= i - start,
                v && all_zeros(orig, start as int, end as int) ==> r == i - start,
                !v && all_ones(orig, start as int, end as int) ==> r == i - start,
            decreases end - i,
        {
            if i % WORD_BITS == 0 && end - i >= WORD_BITS && self.word_uniform(i, !v) {
                proof {
                    lemma_count_fill(self@, i as int, i + WORD_BITS, v);
                }
                self.set_word(i, v);
                r = r + WORD_BITS;
                proof {
                    assert(self@ =~= fill(orig, start as int, i + WORD_BITS, v));
                }
                i = i + WORD_BITS;
            } else if i % WORD_BITS == 0 && end - i >= WORD_BITS && self.word_uniform(i, v) {
                proof {
                    assert(self@[i as int] == orig[i as int]);
                    assert(self@ =~= fill(orig, start as int, i + WORD_BITS, v));
                }
                i = i + WORD_BITS;
            } else {
                if self.get(i) != v {
                    proof {
                        lemma_count_update(self@, i as int, v);
                    }
                    self.set_bit(i, v);
                    r = r + 1;
                }
                proof {
                    assert(self@ =~= fill(orig, start as int, (i + 1) as int, v));
                }
                i = i + 1;
            }
        }
        r
    }

    /// Sets every bit in `[start, end)` and returns how many of them were unset before.
    pub fn set_ones(&mut self, start: usize, end: usize) -> (r: usize)
        requires
            old(self).wf(),
            start <= end <= old(self)@.len(),
        ensures
            final(self).wf(),
            final(self)@ == fill(old(self)@, start as int, end as int, true),
            count_ones(final(self)@) == count_ones(old(self)@) + r,
            r <= end - start,
            all_zeros(old(self)@, start as int, end as int) ==> r == end - start,
    {
        self.set_range(start, end, true)
    }

    /// Clears every bit in `[start, end)` and returns how many of them were set before.
    pub fn set_zeros(&mut self, start: usize, end: usize) -> (r: usize)
        requires
            old(self).wf(),
            start <= end <= old(self)@.len(),
        ensures
            final(self).wf(),
            final(self)@ == fill(old(self)@, start as int, end as int, false),
            count_ones(final(self)@) + r == count_ones(old(self)@),
            r <= end - start,
            all_ones(old(self)@, start as int, end as int) ==> r == end - start,
    {
        self.set_range(start, end, false)
    }

    /// The start of the first run of `k` unset bits that begins at or after `from`.
    ///
    /// Successive calls, each from one past the previous answer, walk every such run in
    /// ascending order; the scan stops at the first match.
    pub fn consecutive_zeros(&self, k: usize, from: usize) -> (r: Option<usize>)
        requires
            self.wf(),
        ensures
            match r {
                Some(s) => {
                    &&& from <= s
                    &&& zero_run(self@, s as int, k as int)
                    &&& forall|t: int| from <= t < s ==> !zero_run(self@, t, k as int)
                },
                None => forall|t: int| from <= t ==> !zero_run(self@, t, k as int),
            },
    {
        let len = self.len;
        if from > len {
            return None;
        }
        if k == 0 {
            return Some(from);
        }
        let mut i: usize = from;
        let mut run: usize = 0;
        while i < len
            invariant
                self.wf(),
                len == self@.len(),
                0 < k,
                from <= i <= len,
                run < k,
                from + run <= i,
                all_zeros(self@, i - run, i as int),
                i - run > from ==> self@[i - run - 1],
                forall|t: int| from <= t && t + k <= i ==> !zero_run(self@, t, k as int),
            decreases len - i,
        {
            let ghost prev_run = run;
            if i % WORD_BITS == 0 && len - i >= WORD_BITS && self.word_uniform(i, true) {
                run = 0;
                proof {
                    assert forall|t: int| from <= t && t + k <= i + WORD_BITS implies !zero_run(
                        self@,
                        t,
                        k as int,
                    ) by {
                        if t + k > i {
                            assert(self@[t + k - 1]);
                        }
                    }
                }
                i = i + WORD_BITS;
            } else if i % WORD_BITS == 0 && len - i >= WORD_BITS && k - run > WORD_BITS
                && self.word_uniform(i, false) {
                run = run + WORD_BITS;
                proof {
                    assert forall|t: int| from <= t && t + k <= i + WORD_BITS implies !zero_run(
                        self@,
                        t,
                        k as int,
                    ) by {
                        if t + k > i {
                            let j = i - prev_run - 1;
                            assert(self@[j]);
                            assert(t <= j < t + k);
                        }
                    }
                }
                i = i + WORD_BITS;
            } else {
                if self.get(i) {
                    run = 0;
                } else {
                    run = run + 1;
                    if run == k {
                        return Some(i + 1 - k);
                    }
                }
                proof {
                    assert forall|t: int| from <= t && t + k <= i + 1 implies !zero_run(
                        self@,
                        t,
                        k as int,
                    ) by {
                        if t + k == i + 1 {
                            if self@[i as int] {
                                assert(t <= i < t + k);
                            } else {
                                let j = i - prev_run - 1;
                                assert(self@[j]);
                                assert(t <= j < t + k);
                            }
                        }
                    }
                }
                i = i + 1;
            }
        }
        None
    }
}

} // verus!
