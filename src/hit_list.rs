//! Intersections of a ray with the objects of a scene, their order along
//! the ray, and the choice of the visible one.
//!
//! A record names its object by index into the scene's object list, so
//! that a list of records can outlive any borrow of the scene.

use vstd::prelude::*;
use crate::param::{is_non_negative, key_of, non_negative, order_key};

verus! {

broadcast use vstd::seq_lib::group_to_multiset_ensures;

/// One intersection: where along the ray it lies, and with which object.
#[derive(Clone, Copy, Debug, PartialEq, Eq, Structural)]
pub struct HitRec {
    /// The ray parameter `t`, as the bit pattern of an `f32`.
    pub t_bits: u32,
    /// The index of the intersected object in the scene's object list.
    pub obj: usize,
}

impl HitRec {
    /// Pairs a ray parameter (as `f32` bits) with an object index.
    pub fn new(t_bits: u32, obj: usize) -> (r: HitRec)
        ensures
            r.t_bits == t_bits,
            r.obj == obj,
    {
        HitRec { t_bits, obj }
    }
}

/// True when the records are in ascending order of their ray parameter.
pub open spec fn sorted_by_t(s: Seq<HitRec>) -> bool {
    forall|i: int, j: int|
        0 <= i < j < s.len() ==> order_key(#[trigger] s[i].t_bits) <= order_key(
            #[trigger] s[j].t_bits,
        )
}

/// True when `b` holds the same records as `a`, each as often.
pub open spec fn same_records(a: Seq<HitRec>, b: Seq<HitRec>) -> bool {
    a.to_multiset() == b.to_multiset()
}

/// True when no record of `s` lies at a parameter `>= 0.0`.
pub open spec fn none_visible(s: Seq<HitRec>) -> bool {
    forall|i: int| 0 <= i < s.len() ==> !is_non_negative(#[trigger] s[i].t_bits)
}

/// True when `h` is a record of `s` at a parameter `>= 0.0`, and no such
/// record of `s` lies before it on the ray.
pub open spec fn is_nearest_visible(s: Seq<HitRec>, h: HitRec) -> bool {
    &&& s.contains(h)
    &&& is_non_negative(h.t_bits)
    &&& forall|i: int|
        0 <= i < s.len() && is_non_negative(#[trigger] s[i].t_bits) ==> order_key(h.t_bits)
            <= order_key(s[i].t_bits)
}

/// The records of several lists, one list after the other.
pub open spec fn all_hits(parts: Seq<HitList>) -> Seq<HitRec>
    decreases parts.len(),
{
    if parts.len() == 0 {
        Seq::empty()
    } else {
        all_hits(parts.drop_last()) + parts.last()@
    }
}

/// A record of `a` is also a record of any `b` with the same records.
proof fn lemma_same_records_contains(a: Seq<HitRec>, b: Seq<HitRec>, h: HitRec)
    requires
        same_records(a, b),
        a.contains(h),
    ensures
        b.contains(h),
{
    assert(a.to_multiset().count(h) > 0);
}

/// An ordered collection of intersection records.
#[derive(Debug)]
pub struct HitList {
    inner: Vec<HitRec>,
}

impl View for HitList {
    type V = Seq<HitRec>;

    closed spec fn view(&self) -> Seq<HitRec> {
        self.inner@
    }
}

impl HitList {
    /// Creates a list that holds the given records in the given order.
    pub fn new(recs: Vec<HitRec>) -> (r: HitList)
        ensures
            r@ == recs@,
    {
        HitList { inner: recs }
    }

    /// Gives back the records.
    pub fn into_inner(self) -> (r: Vec<HitRec>)
        ensures
            r@ == self@,
    {
        self.inner
    }

    /// Puts the records in ascending order of their ray parameter.
    /// Records at equal parameters may come in any order.
    pub fn sort(&mut self)
        ensures
            same_records(final(self)@, old(self)@),
            sorted_by_t(final(self)@),
    {
        let n = self.inner.len();
        let mut sorted: Vec<HitRec> = Vec::new();
        let mut i: usize = 0;
        while i < n
            invariant
                n == self.inner@.len(),
                i <= n,
                sorted_by_t(sorted@),
                sorted@.to_multiset() == self.inner@.take(i as int).to_multiset(),
            decreases n - i,
        {
            let rec = self.inner[i];
            let k = key_of(rec.t_bits);
            let mut pos: usize = 0;
            while pos < sorted.len() && key_of(sorted[pos].t_bits) <= k
                invariant
                    pos <= sorted@.len(),
                    forall|j: int| 0 <= j < pos ==> order_key(#[trigger] sorted@[j].t_bits) <= k,
                decreases sorted@.len() - pos,
            {
                pos = pos + 1;
            }
            proof {
                assert forall|j: int| pos <= j < sorted@.len() implies k < order_key(
                    #[trigger] sorted@[j].t_bits,
                ) by {
                    if j > pos {
                        assert(order_key(sorted@[pos as int].t_bits) <= order_key(
                            sorted@[j].t_bits,
                        ));
                    }
                }
                assert(self.inner@.take(i + 1) == self.inner@.take(i as int).push(rec));
            }
            sorted.insert(pos, rec);
            i = i + 1;
        }
        proof {
            assert(self.inner@.take(n as int) == self.inner@);
        }
        self.inner = sorted;
    }

    /// Sorts the list, then returns its first record at a parameter
    /// `>= 0.0`: the nearest intersection in front of the ray's origin.
    /// Returns `None` when every record lies behind the origin (or the
    /// list is empty).
    pub fn hit(&mut self) -> (r: Option<&HitRec>)
        ensures
            same_records(final(self)@, old(self)@),
            sorted_by_t(final(self)@),
            r is None <==> none_visible(old(self)@),
            r matches Some(h) ==> is_nearest_visible(old(self)@, *h),
    {
        self.sort();
        let n = self.inner.len();
        let mut i: usize = 0;
        while i < n
            invariant
                n == self.inner@.len(),
                i <= n,
                same_records(self.inner@, old(self)@),
                sorted_by_t(self.inner@),
                forall|j: int| 0 <= j < i ==> !is_non_negative(#[trigger] self.inner@[j].t_bits),
            decreases n - i,
        {
            if non_negative(self.inner[i].t_bits) {
                proof {
                    let s = self.inner@;
                    let h = s[i as int];
                    assert(s.contains(h));
                    lemma_same_records_contains(s, old(self)@, h);
                    assert forall|j: int|
                        0 <= j < old(self)@.len() && is_non_negative(
                            #[trigger] old(self)@[j].t_bits,
                        ) implies order_key(h.t_bits) <= order_key(old(self)@[j].t_bits) by {
                        let g = old(self)@[j];
                        assert(old(self)@.contains(g));
                        lemma_same_records_contains(old(self)@, s, g);
                        let m = choose|m: int| 0 <= m < s.len() && s[m] == g;
                        if m < i {
                            assert(!is_non_negative(s[m].t_bits));
                        }
                    }
                    assert(!none_visible(old(self)@)) by {
                        let ix = choose|m: int| 0 <= m < old(self)@.len() && old(self)@[m] == h;
                        assert(is_non_negative(old(self)@[ix].t_bits));
                    }
                }
                return Some(&self.inner[i]);
            }
            i = i + 1;
        }
        proof {
            let s = self.inner@;
            assert forall|j: int| 0 <= j < old(self)@.len() implies !is_non_negative(
                #[trigger] old(self)@[j].t_bits,
            ) by {
                let g = old(self)@[j];
                assert(old(self)@.contains(g));
                lemma_same_records_contains(old(self)@, s, g);
                let m = choose|m: int| 0 <= m < s.len() && s[m] == g;
                assert(!is_non_negative(s[m].t_bits));
            }
        }
        None
    }

    /// Gathers the records of several lists, one per object of a scene,
    /// into one list in ascending order of their ray parameter.
    pub fn combine(parts: Vec<HitList>) -> (r: HitList)
        ensures
            same_records(r@, all_hits(parts@)),
            sorted_by_t(r@),
    {
        let mut all: Vec<HitRec> = Vec::new();
        let mut i: usize = 0;
        while i < parts.len()
            invariant
                i <= parts@.len(),
                all@ == all_hits(parts@.take(i as int)),
            decreases parts@.len() - i,
        {
            let part = &parts[i];
            let mut j: usize = 0;
            while j < part.inner.len()
                invariant
                    j <= part@.len(),
                    all@ == all_hits(parts@.take(i as int)) + part@.take(j as int),
                decreases part@.len() - j,
            {
                all.push(part.inner[j]);
                proof {
                    assert(part@.take(j + 1) == part@.take(j as int).push(part@[j as int]));
                }
                j = j + 1;
            }
            proof {
                assert(part@.take(j as int) == part@);
                assert(parts@.take(i + 1).drop_last() == parts@.take(i as int));
            }
            i = i + 1;
        }
        proof {
            assert(parts@.take(i as int) == parts@);
        }
        let mut r = HitList { inner: all };
        r.sort();
        r
    }

    /// Returns the number of records.
    pub fn len(&self) -> (r: usize)
        ensures
            r == self@.len(),
    {
        self.inner.len()
    }

    /// Returns `true` if the list holds no record.
    #[must_use]
    pub fn is_empty(&self) -> (r: bool)
        ensures
            r <==> self@.len() == 0,
    {
        self.inner.len() == 0
    }

    /// Returns the record at position `i`.
    pub fn get(&self, i: usize) -> (r: &HitRec)
        requires
            i < self@.len(),
        ensures
            *r == self@[i as int],
    {
        &self.inner[i]
    }
}

} // verus!
