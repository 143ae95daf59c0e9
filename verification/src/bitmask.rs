use vstd::prelude::*;

verus! {

/// A set of plot indices (each below 16), one bit per index.
#[derive(Debug, Clone, Copy, PartialEq, Eq, Structural)]
pub struct BitMask(pub u16);

impl BitMask {
    /// Whether index `i` belongs to the set.
    pub open spec fn has(self, i: u16) -> bool {
        i < 16 && (self.0 >> i) & 1u16 == 1u16
    }

    /// The lowest index in the set (16 when the set is empty).
    pub open spec fn lowest(self) -> u16 {
        vstd::std_specs::bits::u16_trailing_zeros(self.0) as u16
    }

    /// The set without its lowest index.
    pub open spec fn rest(self) -> BitMask {
        BitMask(self.0 & ((self.0 - 1) as u16))
    }

    /// The set holding `x` alone.
    pub fn single(x: usize) -> (r: Self)
        requires
            x < 16,
        ensures
            r.0 == 1u16 << (x as u16),
            forall|i: u16| #[trigger] r.has(i) <==> i == x,
    {
        let s: u16 = x as u16;
        proof {
            assert forall|i: u16| #[trigger] BitMask(1u16 << s).has(i) <==> i == s by {
                assert(s < 16 ==> (i < 16 && ((1u16 << s) >> i) & 1u16 == 1u16 <==> i == s))
                    by (bit_vector);
            }
        }
        BitMask(1u16 << s)
    }

    /// Whether the set holds no index.
    pub fn is_empty(self) -> (r: bool)
        ensures
            r == (self.0 == 0),
            r <==> forall|i: u16| !#[trigger] self.has(i),
    {
        proof {
            let v = self.0;
            if v != 0 {
                let t = v.trailing_zeros();
                vstd::std_specs::bits::axiom_u16_trailing_zeros(v);
                assert(self.has(t as u16));
            } else {
                assert forall|i: u16| !#[trigger] self.has(i) by {
                    assert(v == 0 ==> (v >> i) & 1u16 == 0u16) by (bit_vector);
                }
            }
        }
        self.0 == 0
    }

    /// Whether index `x` belongs to the set.
    pub fn contains(self, x: usize) -> (r: bool)
        requires
            x < 16,
        ensures
            r == self.has(x as u16),
    {
        let s: u16 = x as u16;
        (self.0 >> s) & 1 == 1
    }

    /// The set with the membership of index `x` toggled.
    pub fn flip(self, x: usize) -> (r: Self)
        requires
            x < 16,
        ensures
            r.0 == self.0 ^ (1u16 << (x as u16)),
            forall|i: u16| #[trigger] r.has(i) == if i == x { !self.has(i) } else { self.has(i) },
    {
        let s: u16 = x as u16;
        let r = BitMask(self.0 ^ (1u16 << s));
        proof {
            let v = self.0;
            assert forall|i: u16| #[trigger] r.has(i) == if i == s { !self.has(i) } else { self.has(i) } by {
                assert(s < 16 ==> (((v ^ (1u16 << s)) >> i) & 1u16 == 1u16) == if i == s {
                    !((v >> i) & 1u16 == 1u16)
                } else {
                    (v >> i) & 1u16 == 1u16
                }) by (bit_vector);
            }
        }
        r
    }
    /// Removes the lowest index of the set and returns it; `None` when the set is empty.
    pub fn next(&mut self) -> (r: Option<usize>)
        ensures
            old(self).0 == 0 ==> r is None && *final(self) == *old(self),
            old(self).0 != 0 ==> r == Some(old(self).lowest() as usize) && *final(self) == old(
                self,
            ).rest(),
            old(self).0 != 0 ==> (r matches Some(t) && {
                &&& t < 16
                &&& old(self).has(t as u16)
                &&& forall|j: u16| j < t ==> !#[trigger] old(self).has(j)
                &&& forall|i: u16| #[trigger] final(self).has(i) == (old(self).has(i) && i != t)
                &&& final(self).0 < old(self).0
            }),
    {
        if self.0 == 0 {
            return None;
        }
        let v = self.0;
        let t = v.trailing_zeros();
        proof {
            lemma_rest(*self);
        }
        self.0 = v & (v - 1);
        Some(t as usize)
    }

    /// The indices of the set, in ascending order.
    pub fn indices(self) -> (r: Vec<usize>)
        ensures
            forall|k: int| 0 <= k < r.len() ==> r[k] < 16 && self.has(#[trigger] r[k] as u16),
            forall|i: u16| #[trigger] self.has(i) ==> r@.contains(i as usize),
            forall|k: int, l: int| 0 <= k < l < r.len() ==> r[k] < r[l],
    {
        let mut m = self;
        let mut r: Vec<usize> = Vec::new();
        while m.0 != 0
            invariant
                forall|k: int| 0 <= k < r.len() ==> r[k] < 16 && self.has(#[trigger] r[k] as u16),
                forall|i: u16| #[trigger] self.has(i) ==> r@.contains(i as usize) || m.has(i),
                forall|i: u16| #[trigger] m.has(i) ==> self.has(i),
                forall|k: int, l: int| 0 <= k < l < r.len() ==> r[k] < r[l],
                forall|k: int, i: u16| #![trigger r@[k], m.has(i)] 0 <= k < r.len() && m.has(i) ==> r@[k] < i,
            decreases m.0,
        {
            let ghost old_m = m;
            let ghost old_r = r@;
            let t = m.next();
            match t {
                Some(t) => {
                    r.push(t);
                    proof {
                        assert forall|i: u16| #[trigger] self.has(i) implies r@.contains(i as usize)
                            || m.has(i) by {
                            if old_r.contains(i as usize) {
                                let k = choose|k: int| 0 <= k < old_r.len() && old_r[k] == i as usize;
                                assert(r@[k] == i as usize);
                            } else if i == t {
                                assert(r@[old_r.len() as int] == t);
                            }
                        }
                        assert forall|k: int, i: u16| #![trigger r@[k], m.has(i)] 0 <= k < r.len() && m.has(i)
                            implies r@[k] < i by {
                            if k < old_r.len() {
                                assert(old_m.has(i));
                            }
                        }
                    }
                },
                None => {},
            }
        }
        proof {
            assert forall|i: u16| #[trigger] self.has(i) implies r@.contains(i as usize) by {
                if m.has(i) {
                    let mv = m.0;
                    assert(mv == 0 ==> (mv >> i) & 1u16 == 0u16) by (bit_vector);
                }
            }
        }
        r
    }
}

/// The lowest index of a non-empty set belongs to it, no lower index does, and the rest of the
/// set is the set without it, a smaller number.
pub proof fn lemma_rest(m: BitMask)
    requires
        m.0 != 0,
    ensures
        m.lowest() < 16,
        m.has(m.lowest()),
        forall|j: u16| j < m.lowest() ==> !#[trigger] m.has(j),
        forall|i: u16| #[trigger] m.rest().has(i) == (m.has(i) && i != m.lowest()),
        m.rest().0 < m.0,
{
    let v = m.0;
    vstd::std_specs::bits::axiom_u16_trailing_zeros(v);
    let t16 = m.lowest();
    let w = m.rest().0;
    assert forall|i: u16| #[trigger] m.rest().has(i) == (m.has(i) && i != t16) by {
        assert(v != 0 && t16 < 16 && (v >> t16) & 1u16 == 1u16 && v << ((16 - t16) as u16) == 0
            && w == v & ((v - 1) as u16) ==> (i < 16 && (w >> i) & 1u16 == 1u16 <==> (i < 16
            && (v >> i) & 1u16 == 1u16 && i != t16))) by (bit_vector);
    }
    assert forall|j: u16| j < t16 implies !#[trigger] m.has(j) by {
        assert((v >> j) & 1u16 == 0u16);
    }
    assert(v != 0 ==> v & ((v - 1) as u16) < v) by (bit_vector);
}

/// The indices that successive calls of `next` return, starting from `m`, until the set is
/// empty.
pub open spec fn drain(m: BitMask) -> Seq<u16>
    decreases m.0,
{
    if m.0 == 0 {
        Seq::empty()
    } else {
        proof {
            lemma_rest(m);
        }
        seq![m.lowest()] + drain(m.rest())
    }
}

/// Successive calls of `next` list each index of the set exactly once, in strictly ascending
/// order, and then return `None`.
pub proof fn law_next_enumerates(m: BitMask)
    ensures
        forall|k: int| 0 <= k < drain(m).len() ==> #[trigger] m.has(drain(m)[k]),
        forall|i: u16| #[trigger] m.has(i) ==> drain(m).contains(i),
        forall|k: int, l: int| 0 <= k < l < drain(m).len() ==> drain(m)[k] < drain(m)[l],
        drain(m).len() == 0 <==> m.0 == 0,
    decreases m.0,
{
    if m.0 == 0 {
        assert forall|i: u16| !#[trigger] m.has(i) by {
            let z = m.0;
            assert(z == 0 ==> (z >> i) & 1u16 == 0u16) by (bit_vector);
        }
    } else {
        lemma_rest(m);
        let r = m.rest();
        law_next_enumerates(r);
        let d = drain(m);
        let t = m.lowest();
        assert(d == seq![t] + drain(r));
        assert forall|k: int| 0 <= k < d.len() implies #[trigger] m.has(d[k]) by {
            if k > 0 {
                assert(d[k] == drain(r)[k - 1]);
                assert(r.has(drain(r)[k - 1]));
            }
        }
        assert forall|i: u16| #[trigger] m.has(i) implies d.contains(i) by {
            if i == t {
                assert(d[0] == t);
            } else {
                assert(r.has(i));
                let k = choose|k: int| 0 <= k < drain(r).len() && drain(r)[k] == i;
                assert(d[k + 1] == i);
            }
        }
        assert forall|k: int, l: int| 0 <= k < l < d.len() implies d[k] < d[l] by {
            assert(d[l] == drain(r)[l - 1]);
            assert(r.has(drain(r)[l - 1]));
            let x = drain(r)[l - 1];
            assert(m.has(x) && x != t);
            if x < t {
                assert(!m.has(x));
            }
            if k > 0 {
                assert(d[k] == drain(r)[k - 1]);
            }
        }
    }
}

/// Flipping index `x` toggles `x` and leaves every other index as it was.
pub proof fn lemma_flip_has(m: BitMask, x: u16)
    requires
        x < 16,
    ensures
        forall|i: u16| #[trigger] BitMask(m.0 ^ (1u16 << x)).has(i) == if i == x {
            !m.has(i)
        } else {
            m.has(i)
        },
{
    let v = m.0;
    assert forall|i: u16| #[trigger] BitMask(v ^ (1u16 << x)).has(i) == if i == x {
        !m.has(i)
    } else {
        m.has(i)
    } by {
        assert(x < 16 ==> (((v ^ (1u16 << x)) >> i) & 1u16 == 1u16) == if i == x {
            !((v >> i) & 1u16 == 1u16)
        } else {
            (v >> i) & 1u16 == 1u16
        }) by (bit_vector);
    }
}

/// Flipping the same index twice gives the mask back.
pub proof fn lemma_flip_twice(m: BitMask, x: u16)
    requires
        x < 16,
    ensures
        BitMask((m.0 ^ (1u16 << x)) ^ (1u16 << x)) == m,
{
    let v = m.0;
    assert((v ^ (1u16 << x)) ^ (1u16 << x) == v) by (bit_vector);
}

/// The mask of index `x` alone holds exactly `x`.
pub proof fn lemma_single_has(x: u16)
    requires
        x < 16,
    ensures
        forall|i: u16| #[trigger] BitMask(1u16 << x).has(i) <==> i == x,
{
    assert forall|i: u16| #[trigger] BitMask(1u16 << x).has(i) <==> i == x by {
        assert(x < 16 ==> (i < 16 && ((1u16 << x) >> i) & 1u16 == 1u16 <==> i == x)) by (bit_vector);
    }
}

} // verus!
