use vstd::prelude::*;

use crate::table::clone_bytes;

verus! {

/// Mathematical model of the diversion store: the current diversion number,
/// the numbered buffers (buffer `i` holds diversion `i + 1`), and the primary
/// output emitted so far.
#[verifier::ext_equal]
pub struct DivView {
    pub current: int,
    pub bufs: Seq<Seq<u8>>,
    pub out: Seq<u8>,
}

/// Numbered deferred-output buffers plus the current-diversion selector.
/// Diversion 0 is immediate primary output, negative diversions discard, and
/// positive diversions buffer text for later placement.
pub struct DiversionStore {
    pub current: i64,
    pub buffers: Vec<Vec<u8>>,
    pub primary: Vec<u8>,
}

impl View for DiversionStore {
    type V = DivView;

    open spec fn view(&self) -> DivView {
        DivView {
            current: self.current as int,
            bufs: self.buffers@.map(|i: int, b: Vec<u8>| b@),
            out: self.primary@,
        }
    }
}

/// The buffers grown on demand so that diversion `n` is addressable: indices
/// below `n` that were never written are present as empty strings.
pub open spec fn grown_bufs(bufs: Seq<Seq<u8>>, n: int) -> Seq<Seq<u8>> {
    if bufs.len() >= n {
        bufs
    } else {
        bufs + Seq::new((n - bufs.len()) as nat, |i: int| Seq::<u8>::empty())
    }
}

/// The effect of `Write`: text goes to primary output when the current
/// diversion is 0, into buffer `current - 1` (grown on demand) when it is
/// positive, and nowhere at all when it is negative.
pub open spec fn write_model(m: DivView, text: Seq<u8>) -> DivView {
    if m.current == 0 {
        DivView { out: m.out + text, ..m }
    } else if m.current > 0 {
        let g = grown_bufs(m.bufs, m.current);
        DivView { bufs: g.update(m.current - 1, g[m.current - 1] + text), ..m }
    } else {
        m
    }
}

/// What diversion `n` holds: its buffer, or empty when `n` is out of range.
pub open spec fn div_content(m: DivView, n: int) -> Seq<u8> {
    if 1 <= n <= m.bufs.len() {
        m.bufs[n - 1]
    } else {
        Seq::empty()
    }
}

/// The effect of `Undivert(n)`: the full content of diversion `n` is moved to
/// whatever the current diversion targets, per the `Write` rule, and the
/// buffer is then cleared; a no-op on an out-of-range or empty diversion.
pub open spec fn undivert_model(m: DivView, n: int) -> DivView {
    if 1 <= n <= m.bufs.len() && m.bufs[n - 1].len() > 0 {
        let m1 = write_model(m, m.bufs[n - 1]);
        DivView { bufs: m1.bufs.update(n - 1, Seq::<u8>::empty()), ..m1 }
    } else {
        m
    }
}

/// The concatenation of all buffers, in ascending diversion order.
pub open spec fn concat_bufs(bufs: Seq<Seq<u8>>) -> Seq<u8>
    decreases bufs.len(),
{
    if bufs.len() == 0 {
        Seq::empty()
    } else {
        concat_bufs(bufs.drop_last()) + bufs.last()
    }
}

/// The effect of `FlushAll`: every diversion is undiverted to primary output
/// in ascending order and cleared; the current selector is kept.
pub open spec fn flush_model(m: DivView) -> DivView {
    DivView {
        current: m.current,
        bufs: Seq::new(m.bufs.len(), |i: int| Seq::<u8>::empty()),
        out: m.out + concat_bufs(m.bufs),
    }
}

/// Appends the bytes of `src` to `dst`.
pub fn append_bytes(dst: &mut Vec<u8>, src: &Vec<u8>)
    ensures
        final(dst)@ == old(dst)@ + src@,
{
    let n = src.len();
    let mut i: usize = 0;
    while i < n
        invariant
            n == src@.len(),
            0 <= i <= n,
            dst@ == old(dst)@ + src@.subrange(0, i as int),
        decreases n - i,
    {
        dst.push(src[i]);
        proof {
            assert(old(dst)@ + src@.subrange(0, i + 1) =~= (old(dst)@ + src@.subrange(
                0,
                i as int,
            )).push(src@[i as int]));
        }
        i += 1;
    }
    proof {
        assert(old(dst)@ + src@.subrange(0, n as int) =~= old(dst)@ + src@);
    }
}

impl DiversionStore {
    /// A fresh store: current diversion 0, no buffers, no output yet.
    pub fn new() -> (d: DiversionStore)
        ensures
            d@.current == 0,
            d@.bufs == Seq::<Seq<u8>>::empty(),
            d@.out == Seq::<u8>::empty(),
    {
        let d = DiversionStore { current: 0, buffers: Vec::new(), primary: Vec::new() };
        proof {
            assert(d@.bufs =~= Seq::<Seq<u8>>::empty());
        }
        d
    }

    /// Changes the current diversion selector; buffers and output are kept.
    pub fn set_current(&mut self, n: i64)
        ensures
            final(self)@ == (DivView { current: n as int, ..old(self)@ }),
    {
        self.current = n;
    }

    /// Appends `text` to whatever the current diversion targets: primary
    /// output for 0, buffer `current - 1` for a positive selector, nowhere
    /// for a negative one.
    pub fn write(&mut self, text: &Vec<u8>)
        ensures
            final(self)@ == write_model(old(self)@, text@),
    {
        let ghost m0 = self@;
        if self.current == 0 {
            append_bytes(&mut self.primary, text);
        } else if self.current > 0 {
            let need: u64 = self.current as u64;
            let ghost bufs0 = m0.bufs;
            while (self.buffers.len() as u64) < need
                invariant
                    need >= 1,
                    self.current == old(self).current,
                    self.primary@ == old(self).primary@,
                    bufs0.len() <= self.buffers@.len(),
                    self.buffers@.len() <= bufs0.len() || self.buffers@.len() <= need,
                    self.buffers@.map(|i: int, b: Vec<u8>| b@) =~= bufs0 + Seq::new(
                        (self.buffers@.len() - bufs0.len()) as nat,
                        |i: int| Seq::<u8>::empty(),
                    ),
                decreases need - self.buffers@.len(),
            {
                let ghost prev = self.buffers@.map(|i: int, b: Vec<u8>| b@);
                self.buffers.push(Vec::new());
                proof {
                    assert(self.buffers@.map(|i: int, b: Vec<u8>| b@) =~= prev.push(
                        Seq::<u8>::empty(),
                    ));
                    assert(prev.push(Seq::<u8>::empty()) =~= bufs0 + Seq::new(
                        (self.buffers@.len() - bufs0.len()) as nat,
                        |i: int| Seq::<u8>::empty(),
                    ));
                }
            }
            proof {
                assert(self.buffers@.map(|i: int, b: Vec<u8>| b@) =~= grown_bufs(
                    bufs0,
                    m0.current,
                ));
                assert(self.buffers@.len() as u64 >= need);
                assert(need - 1 < self.buffers@.len());
            }
            let idx: usize = (need - 1) as usize;
            let ghost g = grown_bufs(bufs0, m0.current);
            let mut b = self.buffers.remove(idx);
            append_bytes(&mut b, text);
            self.buffers.insert(idx, b);
            proof {
                assert(self.buffers@.map(|i: int, b: Vec<u8>| b@) =~= g.update(
                    m0.current - 1,
                    g[m0.current - 1] + text@,
                ));
            }
        }
    }

    /// Moves the content of diversion `n` to the current target per the
    /// `Write` rule, then clears it; a no-op when `n` is out of range or its
    /// buffer is empty.
    pub fn undivert(&mut self, n: i64)
        ensures
            final(self)@ == undivert_model(old(self)@, n as int),
    {
        let ghost m0 = self@;
        if n >= 1 && (n as u64) <= (self.buffers.len() as u64) {
            proof {
                assert(n - 1 < self.buffers@.len());
            }
            let idx: usize = ((n as u64) - 1) as usize;
            if self.buffers[idx].len() > 0 {
                let content = clone_bytes(&self.buffers[idx]);
                proof {
                    assert(content@ == m0.bufs[n - 1]);
                }
                self.write(&content);
                let ghost m1 = write_model(m0, m0.bufs[n - 1]);
                proof {
                    assert(self@ == m1);
                    assert(m1.bufs.len() >= m0.bufs.len());
                    assert(self.buffers@.len() == m1.bufs.len());
                    assert(idx < self.buffers@.len());
                }
                let dropped = self.buffers.remove(idx);
                self.buffers.insert(idx, Vec::new());
                proof {
                    assert(m1.bufs.len() >= m0.bufs.len());
                    assert(self.buffers@.map(|i: int, b: Vec<u8>| b@) =~= m1.bufs.update(
                        n - 1,
                        Seq::<u8>::empty(),
                    ));
                }
            }
        }
    }

    /// Undiverts every diversion to primary output in ascending order and
    /// clears all buffers; the current selector is kept.
    pub fn flush_all(&mut self)
        ensures
            final(self)@ == flush_model(old(self)@),
    {
        let ghost m0 = self@;
        let n = self.buffers.len();
        let mut i: usize = 0;
        while i < n
            invariant
                m0 == old(self)@,
                n == self.buffers@.len(),
                m0.bufs.len() == n,
                0 <= i <= n,
                self.current == old(self).current,
                self.buffers@ == old(self).buffers@,
                self.primary@ == m0.out + concat_bufs(m0.bufs.take(i as int)),
            decreases n - i,
        {
            let b = clone_bytes(&self.buffers[i]);
            append_bytes(&mut self.primary, &b);
            proof {
                assert(b@ == old(self).buffers@[i as int]@);
                assert(m0.bufs =~= old(self).buffers@.map(|q: int, bb: Vec<u8>| bb@));
                assert(m0.bufs[i as int] == old(self).buffers@[i as int]@);
                assert(b@ == m0.bufs[i as int]);
                assert(m0.bufs.take(i + 1).drop_last() =~= m0.bufs.take(i as int));
                assert(m0.bufs.take(i + 1).last() == m0.bufs[i as int]);
                assert(m0.out + concat_bufs(m0.bufs.take(i + 1)) =~= (m0.out + concat_bufs(
                    m0.bufs.take(i as int),
                )) + b@);
            }
            i += 1;
        }
        let mut fresh: Vec<Vec<u8>> = Vec::new();
        while fresh.len() < n
            invariant
                fresh@.len() <= n,
                forall|k: int| 0 <= k < fresh@.len() ==> (#[trigger] fresh@[k])@
                    == Seq::<u8>::empty(),
            decreases n - fresh@.len(),
        {
            fresh.push(Vec::new());
        }
        self.buffers = fresh;
        proof {
            assert(m0.bufs.take(n as int) =~= m0.bufs);
            assert(self.buffers@.map(|q: int, b: Vec<u8>| b@) =~= Seq::new(
                m0.bufs.len(),
                |i: int| Seq::<u8>::empty(),
            ));
        }
    }

    /// Hands the primary output accumulated so far to the caller, leaving the
    /// store's primary output empty; buffers and selector are kept.
    pub fn take_primary(&mut self) -> (r: Vec<u8>)
        ensures
            r@ == old(self)@.out,
            final(self)@ == (DivView { out: Seq::<u8>::empty(), ..old(self)@ }),
    {
        let r = clone_bytes(&self.primary);
        self.primary = Vec::new();
        r
    }
}

/// Diversion routing law: text written at current diversion 0 appears in
/// primary output immediately; at a positive diversion `k` it appears only
/// once diversion `k` is undiverted toward 0; at a negative diversion it
/// never appears anywhere, leaving the store unchanged.
pub proof fn lemma_diversion_routing(m: DivView, text: Seq<u8>, k: int)
    ensures
        m.current == 0 ==> write_model(m, text).out == m.out + text,
        m.current > 0 ==> write_model(m, text).out == m.out,
        m.current < 0 ==> write_model(m, text) == m,
        m.current == k && k > 0 ==> undivert_model(
            DivView { current: 0, ..write_model(m, text) },
            k,
        ).out == m.out + div_content(m, k) + text,
{
    if m.current == k && k > 0 {
        let g = grown_bufs(m.bufs, k);
        let m1 = write_model(m, text);
        let m2 = DivView { current: 0, ..m1 };
        assert(g.len() >= k);
        assert(g[k - 1] == div_content(m, k)) by {
            if m.bufs.len() >= k {
            } else {
                if k - 1 < m.bufs.len() {
                } else {
                    assert(g[k - 1] == Seq::<u8>::empty());
                }
            }
        }
        assert(m2.bufs[k - 1] == g[k - 1] + text);
        if m2.bufs[k - 1].len() > 0 {
            assert(undivert_model(m2, k).out =~= m.out + div_content(m, k) + text);
        } else {
            assert(g[k - 1].len() == 0 && text.len() == 0);
            assert(undivert_model(m2, k).out =~= m.out + div_content(m, k) + text);
        }
    }
}

} // verus!
