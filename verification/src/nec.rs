//! An ordered collection of elements retrievable by position or by name.
//!
//! The collection pairs an ordered store (names and elements, kept in
//! push order) with a name index (`crate::adjustable`).  The `Indexes`
//! type parameter picks the strategy: `usize` keeps one element per
//! name, so pushing a known name replaces in place (`UNEC`);
//! `Vec<usize>` keeps every element, so pushing a known name appends
//! (`DNEC`).  The invariant `wf` ties the two structures together: the
//! index lists, entry by entry, exactly the positions whose stored name
//! matches, in increasing order.
use vstd::prelude::*;

use crate::adjustable::Adjustable;
use crate::adjustable::IndexView;
use crate::adjustable::ascending;
use crate::adjustable::delete_view;
use crate::adjustable::has_key;
use crate::adjustable::index_wf;
use crate::adjustable::key_seq;
use crate::adjustable::key_slot;
use crate::adjustable::lemma_shift_down_ascending;
use crate::adjustable::lemma_strike_ascending;
use crate::adjustable::positions_of;
use crate::adjustable::shift_down;
use crate::adjustable::strike;
use crate::nameable::Nameable;

verus! {

/// One stored entry: an element and the name it was pushed under.
pub struct ElementBundle<Element> {
    pub elem: Element,
    pub name: String,
}

impl<Element: Clone> Clone for ElementBundle<Element> {
    /// The clone keeps the name; the element is whatever its own
    /// `clone` returns.
    fn clone(&self) -> (r: Self)
        ensures
            r.name@ == self.name@,
            vstd::pervasive::cloned::<Element>(self.elem, r.elem),
    {
        ElementBundle { elem: self.elem.clone(), name: self.name.clone() }
    }
}

impl<Element> Nameable for ElementBundle<Element> {
    /// A bundle's own name is the name it was pushed under.
    open spec fn spec_name(&self) -> Seq<char> {
        self.name@
    }

    fn get_name(&self) -> (r: &str)
        ensures
            r@ == self.spec_name(),
    {
        self.name.as_str()
    }
}

/// The admissible index representations: one position per name
/// (`usize`) or an ordered list of positions per name (`Vec<usize>`).
pub trait Indexable {

}

impl Indexable for usize {

}

impl Indexable for Vec<usize> {

}

/// Whether some position of `v` carries the name `n`.
pub open spec fn has_name<Element>(v: Seq<(Seq<char>, Element)>, n: Seq<char>) -> bool {
    exists|p: int| 0 <= p < v.len() && v[p].0 == n
}

/// The position carrying the name `n`; meaningful when `has_name`
/// holds and the names of `v` are pairwise distinct.
pub open spec fn name_position<Element>(v: Seq<(Seq<char>, Element)>, n: Seq<char>) -> int {
    choose|p: int| 0 <= p < v.len() && v[p].0 == n
}

/// Whether the position `p` of `v` carries the name `n`.
pub open spec fn name_pred<Element>(
    v: Seq<(Seq<char>, Element)>,
    n: Seq<char>,
) -> spec_fn(int) -> bool {
    |p: int| v[p].0 == n
}

/// Every position of `v` carrying the name `n`, in increasing order.
pub open spec fn matching_positions<Element>(
    v: Seq<(Seq<char>, Element)>,
    n: Seq<char>,
) -> Seq<int> {
    Seq::new(v.len(), |p: int| p).filter(name_pred(v, n))
}

/// Whether the index binds position `p` to the name `name`.
pub open spec fn appears(s: IndexView, name: Seq<char>, p: int) -> bool {
    exists|j: int| 0 <= j < s.len() && s[j].0 == name && s[j].1.contains(p)
}

/// The index `s` is in step with a store whose names are `names`: it
/// is well formed, every bound position exists and carries the entry's
/// name, and every position of the store is bound under its name.
pub open spec fn store_wf(names: Seq<Seq<char>>, s: IndexView) -> bool {
    &&& index_wf(s)
    &&& forall|j: int, k: int|
        #![trigger s[j].1[k]]
        0 <= j < s.len() && 0 <= k < s[j].1.len() ==> 0 <= s[j].1[k] < names.len()
            && names[s[j].1[k]] == s[j].0
    &&& forall|p: int| 0 <= p < names.len() ==> appears(s, #[trigger] names[p], p)
}

/// Removing position `p` from the store while applying `delete_view`
/// to the index leaves the two in step.  This is the renumbering
/// argument behind `remove`: the store shifts every later element one
/// position down, and `delete_view` decrements every bound position
/// above `p` to match.
pub proof fn lemma_store_delete_wf(names: Seq<Seq<char>>, s: IndexView, p: int)
    requires
        store_wf(names, s),
        0 <= p < names.len(),
    ensures
        has_key(s, names[p]),
        positions_of(s, names[p]).contains(p),
        store_wf(names.remove(p), delete_view(s, names[p], p)),
{
    let n = names[p];
    assert(appears(s, n, p));
    let jw = choose|j: int| 0 <= j < s.len() && s[j].0 == n && s[j].1.contains(p);
    assert(has_key(s, n)) by {
        assert(s[jw].0 == n);
    }
    let j = key_slot(s, n);
    assert(s[j].0 == n);
    if j != jw {
        assert(s[j].0 != s[jw].0);
        assert(false);
    }
    assert(positions_of(s, n) == s[j].1);
    assert forall|j2: int| 0 <= j2 < s.len() implies ascending(#[trigger] s[j2].1) by {
        assert forall|a: int, b: int| 0 <= a < b < s[j2].1.len() implies s[j2].1[a] < s[j2].1[b] by {
            assert(s[j2].1[a] < s[j2].1[b]);
        }
    }
    assert forall|j2: int| 0 <= j2 < s.len() && j2 != j implies !(#[trigger] s[j2].1).contains(
        p,
    ) by {
        if s[j2].1.contains(p) {
            let k = choose|k: int| 0 <= k < s[j2].1.len() && s[j2].1[k] == p;
            assert(s[j2].1[k] == p);
            assert(names[p] == s[j2].0);
            assert(s[j2].0 != s[j].0);
            assert(false);
        }
    }
    let struck = strike(s[j].1, p);
    lemma_strike_ascending(s[j].1, p);
    let t = s.update(j, (n, struck)).map_values(
        |e: (Seq<char>, Seq<int>)| (e.0, shift_down(e.1, p)),
    );
    let pruned = struck.len() == 0;
    let d = delete_view(s, n, p);
    assert(d == if pruned {
        t.remove(j)
    } else {
        t
    });
    let names2 = names.remove(p);
    // facts about every slot of d, through its source slot in s
    assert forall|jd: int| 0 <= jd < d.len() implies {
        let src = if pruned && jd >= j {
            jd + 1
        } else {
            jd
        };
        let lsrc = if src == j {
            struck
        } else {
            s[src].1
        };
        &&& 0 <= src < s.len()
        &&& #[trigger] d[jd] == (s[src].0, shift_down(lsrc, p))
        &&& ascending(lsrc)
        &&& !lsrc.contains(p)
        &&& (src != j ==> lsrc.len() > 0)
        &&& (src == j ==> !pruned)
    } by {
        let src = if pruned && jd >= j {
            jd + 1
        } else {
            jd
        };
        if pruned {
            assert(d[jd] == t[src]);
        }
        if src == j {
            lemma_strike_ascending(s[j].1, p);
        }
    }
    // well-formedness clause by clause
    assert forall|j1: int, j2: int| 0 <= j1 < j2 < d.len() implies d[j1].0 != d[j2].0 by {
        let s1 = if pruned && j1 >= j {
            j1 + 1
        } else {
            j1
        };
        let s2 = if pruned && j2 >= j {
            j2 + 1
        } else {
            j2
        };
        assert(d[j1].0 == s[s1].0);
        assert(d[j2].0 == s[s2].0);
        assert(s[s1].0 != s[s2].0);
    }
    assert forall|jd: int| 0 <= jd < d.len() implies (#[trigger] d[jd].1).len() > 0 by {
        let src = if pruned && jd >= j {
            jd + 1
        } else {
            jd
        };
        let lsrc = if src == j {
            struck
        } else {
            s[src].1
        };
        lemma_shift_down_ascending(lsrc, p);
    }
    assert forall|jd: int, a: int, b: int|
        0 <= jd < d.len() && 0 <= a < b < d[jd].1.len() implies d[jd].1[a] < d[jd].1[b] by {
        let src = if pruned && jd >= j {
            jd + 1
        } else {
            jd
        };
        let lsrc = if src == j {
            struck
        } else {
            s[src].1
        };
        lemma_shift_down_ascending(lsrc, p);
        assert(ascending(d[jd].1));
    }
    assert forall|jd: int, k: int|
        0 <= jd < d.len() && 0 <= k < d[jd].1.len() implies 0 <= #[trigger] d[jd].1[k]
            < names2.len() && names2[d[jd].1[k]] == d[jd].0 by {
        let src = if pruned && jd >= j {
            jd + 1
        } else {
            jd
        };
        let lsrc = if src == j {
            struck
        } else {
            s[src].1
        };
        lemma_shift_down_ascending(lsrc, p);
        let q = lsrc[k];
        assert(d[jd].1[k] == if q > p {
            q - 1
        } else {
            q
        });
        assert(s[src].1.contains(q)) by {
            if src == j {
                assert(struck[k] == q);
                assert(struck.contains(q));
            } else {
                assert(s[src].1[k] == q);
            }
        }
        assert(0 <= q < names.len() && names[q] == s[src].0) by {
            let kq = choose|kq: int| 0 <= kq < s[src].1.len() && s[src].1[kq] == q;
            assert(s[src].1[kq] == q);
        }
        assert(q != p);
        if q > p {
            assert(names2[q - 1] == names[q]);
        } else {
            assert(names2[q] == names[q]);
        }
    }
    assert forall|p2: int| 0 <= p2 < names2.len() implies appears(d, #[trigger] names2[p2], p2) by {
        let q = if p2 < p {
            p2
        } else {
            p2 + 1
        };
        assert(names2[p2] == names[q]);
        assert(q != p);
        assert(appears(s, names[q], q));
        let jw2 = choose|j2: int| 0 <= j2 < s.len() && s[j2].0 == names[q] && s[j2].1.contains(q);
        let lsrc = if jw2 == j {
            struck
        } else {
            s[jw2].1
        };
        assert(lsrc.contains(q)) by {
            if jw2 == j {
                assert(strike(s[j].1, p).contains(q));
            }
        }
        assert(!lsrc.contains(p));
        assert(ascending(lsrc));
        lemma_shift_down_ascending(lsrc, p);
        assert(shift_down(lsrc, p).contains(p2)) by {
            if q > p {
                assert(lsrc.contains(p2 + 1) && p2 + 1 > p);
            } else {
                assert(lsrc.contains(p2) && p2 < p);
            }
        }
        if jw2 == j {
            assert(!pruned);
            let jd = if pruned && jw2 > j {
                jw2 - 1
            } else {
                jw2
            };
            assert(d[jd] == (s[jw2].0, shift_down(lsrc, p)));
            assert(d[jd].0 == names2[p2] && d[jd].1.contains(p2));
        } else {
            let jd = if pruned && jw2 > j {
                jw2 - 1
            } else {
                jw2
            };
            assert(0 <= jd < d.len());
            assert(d[jd] == (s[jw2].0, shift_down(lsrc, p)));
            assert(d[jd].0 == names2[p2] && d[jd].1.contains(p2));
        }
    }
}

/// What pushing under the unique strategy does to the collection's
/// content: a name already present has its element replaced in place,
/// a new name is appended.
pub open spec fn unique_push<Element>(
    v: Seq<(Seq<char>, Element)>,
    n: Seq<char>,
    e: Element,
) -> Seq<(Seq<char>, Element)> {
    if has_name(v, n) {
        v.update(name_position(v, n), (n, e))
    } else {
        v.push((n, e))
    }
}

/// `unique_push` folded over a whole sequence of (name, element)
/// pairs, first pair first.
pub open spec fn unique_push_all<Element>(
    v: Seq<(Seq<char>, Element)>,
    pairs: Seq<(Seq<char>, Element)>,
) -> Seq<(Seq<char>, Element)>
    decreases pairs.len(),
{
    if pairs.len() == 0 {
        v
    } else {
        unique_push_all(unique_push(v, pairs[0].0, pairs[0].1), pairs.skip(1))
    }
}

/// A vector of (name, element) pairs, as the sequence of their views.
pub open spec fn pairs_view<Element>(source: Seq<(String, Element)>) -> Seq<(Seq<char>, Element)> {
    source.map_values(|pr: (String, Element)| (pr.0@, pr.1))
}

/// Appending a position under a name keeps store and index in step:
/// a new name gains a singleton entry at the end, a known name has the
/// new position appended to its list.
pub proof fn lemma_store_add_wf(names: Seq<Seq<char>>, s: IndexView, n: Seq<char>)
    requires
        store_wf(names, s),
    ensures
        !has_key(s, n) ==> store_wf(names.push(n), s.push((n, seq![names.len() as int]))),
        has_key(s, n) ==> store_wf(
            names.push(n),
            s.update(key_slot(s, n), (n, s[key_slot(s, n)].1.push(names.len() as int))),
        ),
{
    let m = names.len() as int;
    let names2 = names.push(n);
    if !has_key(s, n) {
        let d = s.push((n, seq![m]));
        assert forall|j1: int, j2: int| 0 <= j1 < j2 < d.len() implies d[j1].0 != d[j2].0 by {
            if j2 == s.len() {
                if d[j1].0 == n {
                    assert(s[j1].0 == n);
                }
            }
        }
        assert forall|jd: int, k: int|
            0 <= jd < d.len() && 0 <= k < d[jd].1.len() implies 0 <= #[trigger] d[jd].1[k]
                < names2.len() && names2[d[jd].1[k]] == d[jd].0 by {
            if jd < s.len() {
                assert(d[jd] == s[jd]);
                assert(s[jd].1[k] < names.len());
                assert(names2[s[jd].1[k]] == names[s[jd].1[k]]);
            } else {
                assert(d[jd].1 == seq![m]);
            }
        }
        assert forall|p: int| 0 <= p < names2.len() implies appears(
            d,
            #[trigger] names2[p],
            p,
        ) by {
            if p < m {
                assert(appears(s, names[p], p));
                let j1 = choose|j: int|
                    0 <= j < s.len() && s[j].0 == names[p] && s[j].1.contains(p);
                assert(d[j1] == s[j1]);
                assert(d[j1].0 == names2[p] && d[j1].1.contains(p));
            } else {
                assert(d[s.len() as int].0 == n && d[s.len() as int].1[0] == m);
                assert(d[s.len() as int].1.contains(p));
            }
        }
    } else {
        let j = key_slot(s, n);
        assert(s[j].0 == n);
        let d = s.update(j, (n, s[j].1.push(m)));
        assert forall|j1: int, j2: int| 0 <= j1 < j2 < d.len() implies d[j1].0 != d[j2].0 by {
            assert(d[j1].0 == s[j1].0);
            assert(d[j2].0 == s[j2].0);
        }
        assert forall|jd: int| 0 <= jd < d.len() implies (#[trigger] d[jd].1).len() > 0 by {
            if jd != j {
                assert(d[jd] == s[jd]);
            }
        }
        assert forall|jd: int, a: int, b: int|
            0 <= jd < d.len() && 0 <= a < b < d[jd].1.len() implies d[jd].1[a] < d[jd].1[b] by {
            if jd != j {
                assert(d[jd] == s[jd]);
                assert(s[jd].1[a] < s[jd].1[b]);
            } else {
                if b < s[j].1.len() {
                    assert(s[j].1[a] < s[j].1[b]);
                } else {
                    assert(d[jd].1[b] == m);
                    assert(s[j].1[a] < m);
                }
            }
        }
        assert forall|jd: int, k: int|
            0 <= jd < d.len() && 0 <= k < d[jd].1.len() implies 0 <= #[trigger] d[jd].1[k]
                < names2.len() && names2[d[jd].1[k]] == d[jd].0 by {
            if jd != j {
                assert(d[jd] == s[jd]);
                assert(s[jd].1[k] < names.len());
                assert(names2[s[jd].1[k]] == names[s[jd].1[k]]);
            } else {
                if k < s[j].1.len() {
                    assert(d[jd].1[k] == s[j].1[k]);
                    assert(names2[s[j].1[k]] == names[s[j].1[k]]);
                } else {
                    assert(d[jd].1[k] == m);
                    assert(names2[m] == n);
                }
            }
        }
        assert forall|p: int| 0 <= p < names2.len() implies appears(
            d,
            #[trigger] names2[p],
            p,
        ) by {
            if p < m {
                assert(appears(s, names[p], p));
                let j1 = choose|j2: int|
                    0 <= j2 < s.len() && s[j2].0 == names[p] && s[j2].1.contains(p);
                if j1 != j {
                    assert(d[j1] == s[j1]);
                    assert(d[j1].0 == names2[p] && d[j1].1.contains(p));
                } else {
                    assert(s[j].1.contains(p));
                    let k = choose|k: int| 0 <= k < s[j].1.len() && s[j].1[k] == p;
                    assert(d[j].1[k] == p);
                    assert(d[j].0 == names2[p] && d[j].1.contains(p));
                }
            } else {
                assert(d[j].1[s[j].1.len() as int] == m);
                assert(d[j].0 == n && d[j].1.contains(p));
            }
        }
    }
}

/// When every index entry binds exactly one position, the stored names
/// are pairwise distinct.
pub proof fn lemma_singleton_names_distinct(names: Seq<Seq<char>>, s: IndexView)
    requires
        store_wf(names, s),
        forall|j: int| 0 <= j < s.len() ==> (#[trigger] s[j].1).len() == 1,
    ensures
        forall|p1: int, p2: int|
            #![trigger names[p1], names[p2]]
            0 <= p1 < p2 < names.len() ==> names[p1] != names[p2],
{
    assert forall|p1: int, p2: int|
        #![trigger names[p1], names[p2]]
        0 <= p1 < p2 < names.len() implies names[p1] != names[p2] by {
        if names[p1] == names[p2] {
            assert(appears(s, names[p1], p1));
            assert(appears(s, names[p2], p2));
            let j1 = choose|j: int|
                0 <= j < s.len() && s[j].0 == names[p1] && s[j].1.contains(p1);
            let j2 = choose|j: int|
                0 <= j < s.len() && s[j].0 == names[p2] && s[j].1.contains(p2);
            if j1 != j2 {
                assert(s[j1].0 != s[j2].0);
                assert(false);
            }
            let k1 = choose|k: int| 0 <= k < s[j1].1.len() && s[j1].1[k] == p1;
            let k2 = choose|k: int| 0 <= k < s[j1].1.len() && s[j1].1[k] == p2;
            assert(k1 == 0 && k2 == 0);
            assert(false);
        }
    }
}

/// An ordered store of named elements with a name index beside it.
/// `Indexes` picks the strategy for duplicate names: replace in place
/// (`usize`) or append (`Vec<usize>`).
pub struct NamedElementsCollection<Element, Indexes: Indexable> {
    names: Vec<String>,
    elems: Vec<Element>,
    nmap: Vec<(String, Indexes)>,
}

/// Collection whose names are unique: pushing a known name replaces
/// that element in place.
pub type UNEC<Element> = NamedElementsCollection<Element, usize>;

/// Collection whose names may repeat: pushing a known name appends,
/// and lookup by name yields every match in push order.
pub type DNEC<Element> = NamedElementsCollection<Element, Vec<usize>>;

impl<Element, Indexes: Indexable> View for NamedElementsCollection<Element, Indexes> {
    type V = Seq<(Seq<char>, Element)>;

    /// The collection is, abstractly, its sequence of (name, element)
    /// pairs in push order.
    closed spec fn view(&self) -> Seq<(Seq<char>, Element)> {
        Seq::new(self.names@.len(), |p: int| (self.names@[p]@, self.elems@[p]))
    }
}

impl<Element, Indexes: Indexable> NamedElementsCollection<Element, Indexes> where
    Vec<(String, Indexes)>: Adjustable,
 {
    /// The stored names, in order.
    pub closed spec fn name_seq(&self) -> Seq<Seq<char>> {
        self.names@.map_values(|s: String| s@)
    }

    /// The abstract content of the name index.
    pub closed spec fn index_view(&self) -> IndexView {
        self.nmap.entry_view()
    }

    /// The collection's invariant: store and index agree.
    pub closed spec fn wf(&self) -> bool {
        &&& self.names@.len() == self.elems@.len()
        &&& store_wf(self.name_seq(), self.index_view())
    }

    /// Creates a new, empty collection.
    pub fn new() -> (r: Self)
        ensures
            r.wf(),
            r@ == Seq::<(Seq<char>, Element)>::empty(),
            r.index_view() == Seq::<(Seq<char>, Seq<int>)>::empty(),
    {
        let r = NamedElementsCollection {
            names: Vec::new(),
            elems: Vec::new(),
            nmap: <Vec<(String, Indexes)> as Adjustable>::empty_index(),
        };
        proof {
            assert(r@ =~= Seq::<(Seq<char>, Element)>::empty());
        }
        r
    }

    /// The number of elements held.
    pub fn len(&self) -> (r: usize)
        requires
            self.wf(),
        ensures
            r == self@.len(),
    {
        self.names.len()
    }

    /// Whether the collection holds no element.
    pub fn is_empty(&self) -> (r: bool)
        requires
            self.wf(),
        ensures
            r == (self@.len() == 0),
    {
        self.names.is_empty()
    }

    /// The element at `index`, or nothing when `index` is out of range.
    pub fn get(&self, index: usize) -> (r: Option<&Element>)
        requires
            self.wf(),
        ensures
            index < self@.len() ==> r is Some && *r.unwrap() == self@[index as int].1,
            index >= self@.len() ==> r is None,
    {
        if index < self.elems.len() {
            Some(&self.elems[index])
        } else {
            None
        }
    }

    /// The name under which the element at `index` was pushed, or
    /// nothing when `index` is out of range.
    pub fn get_name(&self, index: usize) -> (r: Option<&String>)
        requires
            self.wf(),
        ensures
            index < self@.len() ==> r is Some && r.unwrap()@ == self@[index as int].0,
            index >= self@.len() ==> r is None,
    {
        if index < self.names.len() {
            Some(&self.names[index])
        } else {
            None
        }
    }

    /// The element at `index` of a collection known to be long enough;
    /// the checked counterpart is `get`.
    pub fn at(&self, index: usize) -> (r: &Element)
        requires
            self.wf(),
            index < self@.len(),
        ensures
            *r == self@[index as int].1,
    {
        &self.elems[index]
    }

    /// The element at `index`, handed out for writing; the name at
    /// `index` stays as it is, so the name index is untouched.
    pub fn get_mut(&mut self, index: usize) -> (r: Option<&mut Element>)
        requires
            old(self).wf(),
        ensures
            final(self).wf(),
            final(self).index_view() == old(self).index_view(),
            index >= old(self)@.len() ==> r is None && final(self)@ == old(self)@,
            index < old(self)@.len() ==> r is Some && *r.unwrap() == old(self)@[index as int].1
                && final(self)@.len() == old(self)@.len() && final(self)@[index as int] == (
            old(self)@[index as int].0,
            *final(r.unwrap()),
            ) && (forall|i: int|
                0 <= i < old(self)@.len() && i != index ==> final(self)@[i] == old(self)@[i]),
    {
        if index < self.elems.len() {
            let e = &mut self.elems[index];
            Some(e)
        } else {
            proof {
                assert(self@ =~= old(self)@);
            }
            None
        }
    }

    /// Whether some element is held under `name`.
    pub fn contains_name(&self, name: &str) -> (r: bool)
        requires
            self.wf(),
        ensures
            r == has_name(self@, name@),
    {
        let r = self.nmap.contains_key(name);
        proof {
            let s = self.index_view();
            if r {
                let j0 = key_slot(s, name@);
                assert(s[j0].0 == name@);
                assert(s[j0].1.len() > 0);
                let q = s[j0].1[0];
                assert(s[j0].1.contains(q));
                assert(self.name_seq()[q] == name@);
                assert(self@[q].0 == name@);
            }
            if has_name(self@, name@) {
                let p = choose|p: int| 0 <= p < self@.len() && self@[p].0 == name@;
                assert(self.name_seq()[p] == name@);
                assert(appears(s, self.name_seq()[p], p));
                let j1 = choose|j: int|
                    0 <= j < s.len() && s[j].0 == name@ && s[j].1.contains(p);
                assert(s[j1].0 == name@);
                assert(has_key(s, name@));
            }
        }
        r
    }

    /// The distinct names held, in the order their index entries were
    /// created: a name is listed once, whatever the number of elements
    /// under it, and every listed name is held.
    pub fn names(&self) -> (r: Vec<String>)
        requires
            self.wf(),
        ensures
            r@.map_values(|s: String| s@) == key_seq(self.index_view()),
            forall|i1: int, i2: int| 0 <= i1 < i2 < r@.len() ==> r@[i1]@ != r@[i2]@,
            forall|i: int| 0 <= i < r@.len() ==> has_name(self@, #[trigger] r@[i]@),
            forall|p: int|
                0 <= p < self@.len() ==> key_seq(self.index_view()).contains(
                    #[trigger] self@[p].0,
                ),
    {
        let r = self.nmap.keys();
        proof {
            let iv = self.index_view();
            assert(r@.len() == iv.len()) by {
                assert(r@.map_values(|s: String| s@).len() == r@.len());
                assert(key_seq(iv).len() == iv.len());
            }
            assert(forall|i: int|
                0 <= i < r@.len() ==> #[trigger] r@[i]@ == iv[i].0) by {
                assert forall|i: int| 0 <= i < r@.len() implies #[trigger] r@[i]@ == iv[i].0 by {
                    assert(r@.map_values(|s: String| s@)[i] == r@[i]@);
                    assert(key_seq(iv)[i] == iv[i].0);
                }
            }
            assert forall|i: int| 0 <= i < r@.len() implies has_name(self@, #[trigger] r@[i]@) by {
                assert(iv[i].1.len() > 0);
                let q = iv[i].1[0];
                assert(iv[i].1.contains(q));
                assert(self.name_seq()[q] == iv[i].0);
                assert(self@[q].0 == r@[i]@);
            }
            assert forall|p: int| 0 <= p < self@.len() implies key_seq(iv).contains(
                self@[p].0,
            ) by {
                assert(self@[p].0 == self.name_seq()[p]);
                assert(appears(iv, self.name_seq()[p], p));
                let j1 = choose|j: int|
                    0 <= j < iv.len() && iv[j].0 == self.name_seq()[p] && iv[j].1.contains(p);
                assert(key_seq(iv)[j1] == iv[j1].0);
            }
        }
        r
    }

    /// Remove and return the entry at `index`; every later element
    /// moves one position down, and the name index is renumbered to
    /// match.  The position must be in range; `try_remove` is the
    /// checked counterpart for untrusted positions.
    pub fn remove(&mut self, index: usize) -> (r: ElementBundle<Element>)
        requires
            old(self).wf(),
            index < old(self)@.len(),
        ensures
            final(self).wf(),
            r.name@ == old(self)@[index as int].0,
            r.elem == old(self)@[index as int].1,
            final(self)@ == old(self)@.remove(index as int),
            final(self).index_view() == delete_view(
                old(self).index_view(),
                old(self)@[index as int].0,
                index as int,
            ),
    {
        let name = self.names.remove(index);
        let elem = self.elems.remove(index);
        self.nmap.delete_entry(name.as_str(), index);
        proof {
            let onames = old(self).name_seq();
            let s = old(self).index_view();
            lemma_store_delete_wf(onames, s, index as int);
            assert(onames[index as int] == old(self)@[index as int].0);
            assert(self.name_seq() =~= onames.remove(index as int));
            assert(self@ =~= old(self)@.remove(index as int));
        }
        ElementBundle { elem, name }
    }

    /// Remove and return the entry at `index`, or report an absent
    /// value when `index` is out of range, leaving the collection as it
    /// was.
    pub fn try_remove(&mut self, index: usize) -> (r: Option<ElementBundle<Element>>)
        requires
            old(self).wf(),
        ensures
            final(self).wf(),
            index >= old(self)@.len() ==> r is None && final(self)@ == old(self)@ && final(
                self
            ).index_view() == old(self).index_view(),
            index < old(self)@.len() ==> r is Some && r.unwrap().name@ == old(
                self
            )@[index as int].0 && r.unwrap().elem == old(self)@[index as int].1 && final(self)@
                == old(self)@.remove(index as int),
    {
        if index < self.names.len() {
            Some(self.remove(index))
        } else {
            None
        }
    }

    /// Empties the collection.
    pub fn clear(&mut self)
        requires
            old(self).wf(),
        ensures
            final(self).wf(),
            final(self)@ == Seq::<(Seq<char>, Element)>::empty(),
            final(self).index_view() == Seq::<(Seq<char>, Seq<int>)>::empty(),
    {
        self.names.clear();
        self.elems.clear();
        self.nmap.clear_entries();
        proof {
            assert(self@ =~= Seq::<(Seq<char>, Element)>::empty());
        }
    }
}

/// Folding one more pair into `unique_push_all` from the right is one
/// more `unique_push`.
pub proof fn lemma_unique_push_all_snoc<Element>(
    v: Seq<(Seq<char>, Element)>,
    pairs: Seq<(Seq<char>, Element)>,
    x: (Seq<char>, Element),
)
    ensures
        unique_push_all(v, pairs.push(x)) == unique_push(unique_push_all(v, pairs), x.0, x.1),
    decreases pairs.len(),
{
    if pairs.len() == 0 {
        assert(pairs.push(x)[0] == x);
        assert(pairs.push(x).skip(1) =~= Seq::<(Seq<char>, Element)>::empty());
        let w = unique_push(v, x.0, x.1);
        assert(unique_push_all(v, pairs.push(x)) == unique_push_all(w, pairs.push(x).skip(1)));
        assert(unique_push_all(w, pairs.push(x).skip(1)) == w);
        assert(unique_push_all(v, pairs) == v);
    } else {
        assert(pairs.push(x)[0] == pairs[0]);
        assert(pairs.push(x).skip(1) =~= pairs.skip(1).push(x));
        let w = unique_push(v, pairs[0].0, pairs[0].1);
        lemma_unique_push_all_snoc(w, pairs.skip(1), x);
        assert(unique_push_all(v, pairs.push(x)) == unique_push_all(w, pairs.skip(1).push(x)));
        assert(unique_push_all(v, pairs) == unique_push_all(w, pairs.skip(1)));
    }
}

/// Two strictly increasing sequences with the same members are the
/// same sequence.
pub proof fn lemma_ascending_same_members(a: Seq<int>, b: Seq<int>)
    requires
        ascending(a),
        ascending(b),
        forall|q: int|
            #![trigger a.contains(q)]
            #![trigger b.contains(q)]
            a.contains(q) <==> b.contains(q),
    ensures
        a == b,
    decreases a.len(),
{
    if a.len() == 0 {
        if b.len() > 0 {
            assert(b.contains(b[0]));
            assert(false);
        }
        assert(a =~= b);
    } else {
        assert(a.contains(a[0]));
        assert(b.len() > 0) by {
            if b.len() == 0 {
                assert(b.contains(a[0]));
                assert(false);
            }
        }
        assert(b.contains(b[0]));
        assert(a[0] == b[0]) by {
            let ka = choose|k: int| 0 <= k < a.len() && a[k] == b[0];
            if ka > 0 {
                assert(a[0] < a[ka]);
            }
            let kb = choose|k: int| 0 <= k < b.len() && b[k] == a[0];
            if kb > 0 {
                assert(b[0] < b[kb]);
            }
        }
        let at = a.skip(1);
        let bt = b.skip(1);
        assert(ascending(at)) by {
            assert forall|x: int, y: int| 0 <= x < y < at.len() implies at[x] < at[y] by {
                assert(a[x + 1] < a[y + 1]);
            }
        }
        assert(ascending(bt)) by {
            assert forall|x: int, y: int| 0 <= x < y < bt.len() implies bt[x] < bt[y] by {
                assert(b[x + 1] < b[y + 1]);
            }
        }
        assert forall|q: int|
            #![trigger at.contains(q)]
            #![trigger bt.contains(q)]
            at.contains(q) <==> bt.contains(q) by {
            lemma_tail_member(a, q);
            lemma_tail_member(b, q);
        }
        lemma_ascending_same_members(at, bt);
        assert(a =~= b) by {
            assert forall|k: int| 0 <= k < a.len() implies a[k] == b[k] by {
                if k > 0 {
                    assert(at[k - 1] == bt[k - 1]);
                }
            }
        }
    }
}

/// For a strictly increasing sequence, membership in the tail is
/// membership above the head.
proof fn lemma_tail_member(a: Seq<int>, q: int)
    requires
        ascending(a),
        a.len() > 0,
    ensures
        a.skip(1).contains(q) <==> (a.contains(q) && q > a[0]),
{
    let at = a.skip(1);
    if at.contains(q) {
        let k = choose|k: int| 0 <= k < at.len() && at[k] == q;
        assert(a[k + 1] == q);
        assert(a[0] < a[k + 1]);
        assert(a.contains(q));
    }
    if a.contains(q) && q > a[0] {
        let k = choose|k: int| 0 <= k < a.len() && a[k] == q;
        assert(k > 0);
        assert(at[k - 1] == q);
        assert(at.contains(q));
    }
}

/// Filtering the positions `0 .. m` by any predicate gives a strictly
/// increasing sequence holding exactly the positions that satisfy it.
pub proof fn lemma_range_filter(m: int, pred: spec_fn(int) -> bool, rng: Seq<int>)
    requires
        0 <= m,
        rng == Seq::new(m as nat, |p: int| p),
    ensures
        ascending(rng.filter(pred)),
        forall|q: int| #[trigger] rng.filter(pred).contains(q) <==> (0 <= q < m && pred(q)),
    decreases m,
{
    reveal(Seq::filter);
    let out = rng.filter(pred);
    if m == 0 {
        assert(out.len() == 0);
        assert forall|q: int| #[trigger] out.contains(q) implies false by {
            let k = choose|k: int| 0 <= k < out.len() && out[k] == q;
        }
    } else {
        let prev = Seq::new((m - 1) as nat, |p: int| p);
        lemma_range_filter(m - 1, pred, prev);
        assert(rng.drop_last() =~= prev);
        assert(rng.last() == m - 1);
        let sub = prev.filter(pred);
        assert(out == if pred(m - 1) {
            sub.push(m - 1)
        } else {
            sub
        });
        if pred(m - 1) {
            assert forall|x: int, y: int| 0 <= x < y < out.len() implies out[x] < out[y] by {
                if y < out.len() - 1 {
                    assert(sub[x] < sub[y]);
                } else {
                    assert(out[x] == sub[x]);
                    assert(sub.contains(sub[x]));
                    assert(sub[x] < m - 1);
                }
            }
            assert forall|q: int| #[trigger] out.contains(q) <==> (0 <= q < m && pred(q)) by {
                if out.contains(q) {
                    let k = choose|k: int| 0 <= k < out.len() && out[k] == q;
                    if k < out.len() - 1 {
                        assert(sub[k] == q);
                        assert(sub.contains(q));
                    }
                }
                if 0 <= q < m && pred(q) {
                    if q < m - 1 {
                        assert(sub.contains(q));
                        let k = choose|k: int| 0 <= k < sub.len() && sub[k] == q;
                        assert(out[k] == q);
                    } else {
                        assert(out[out.len() - 1] == q);
                    }
                    assert(out.contains(q));
                }
            }
        } else {
            assert forall|q: int| #[trigger] out.contains(q) <==> (0 <= q < m && pred(q)) by {
                if 0 <= q < m && pred(q) {
                    assert(q != m - 1);
                    assert(sub.contains(q));
                }
            }
        }
    }
}

/// Under the invariant, the index entry for a name lists exactly
/// `matching_positions` of the collection's content.
pub proof fn lemma_entry_is_matching<Element>(
    v: Seq<(Seq<char>, Element)>,
    names: Seq<Seq<char>>,
    s: IndexView,
    n: Seq<char>,
)
    requires
        store_wf(names, s),
        names.len() == v.len(),
        forall|p: int| 0 <= p < v.len() ==> #[trigger] v[p].0 == names[p],
        has_key(s, n),
    ensures
        s[key_slot(s, n)].1 == matching_positions(v, n),
{
    let j = key_slot(s, n);
    assert(s[j].0 == n);
    let l = s[j].1;
    assert(ascending(l)) by {
        assert forall|a: int, b: int| 0 <= a < b < l.len() implies l[a] < l[b] by {
            assert(s[j].1[a] < s[j].1[b]);
        }
    }
    let pred = name_pred(v, n);
    let mp = matching_positions(v, n);
    lemma_range_filter(v.len() as int, pred, Seq::new(v.len(), |p: int| p));
    assert forall|q: int|
        #![trigger l.contains(q)]
        #![trigger mp.contains(q)]
        l.contains(q) <==> mp.contains(q) by {
        if l.contains(q) {
            let k = choose|k: int| 0 <= k < l.len() && l[k] == q;
            assert(s[j].1[k] == q);
            assert(names[q] == n);
            assert(v[q].0 == n);
            assert(mp.contains(q));
        }
        if mp.contains(q) {
            assert(0 <= q < v.len() && pred(q));
            assert(names[q] == n);
            assert(appears(s, names[q], q));
            let j2 = choose|j2: int|
                0 <= j2 < s.len() && s[j2].0 == names[q] && s[j2].1.contains(q);
            if j2 != j {
                assert(s[j2].0 != s[j].0);
                assert(false);
            }
            assert(l.contains(q));
        }
    }
    assert(ascending(mp));
    lemma_ascending_same_members(l, mp);
}

impl<Element> NamedElementsCollection<Element, usize> {
    /// Push `element` under `name`.  A name already held keeps its
    /// position: the element there is replaced and the length does not
    /// change.  A new name is appended at the end.
    pub fn push(&mut self, name: &str, element: Element)
        requires
            old(self).wf(),
        ensures
            final(self).wf(),
            final(self)@ == unique_push(old(self)@, name@, element),
            has_name(final(self)@, name@),
            has_name(old(self)@, name@) ==> final(self).index_view() == old(self).index_view(),
            !has_name(old(self)@, name@) ==> final(self).index_view() == old(
                self
            ).index_view().push((name@, seq![old(self)@.len() as int])),
    {
        let key: String = name.to_owned();
        let n = self.nmap.len();
        let mut slot: Option<usize> = None;
        let mut j: usize = 0;
        while j < n
            invariant
                n == self.nmap@.len(),
                j <= n,
                key@ == name@,
                self == old(self),
                slot is None ==> forall|i: int|
                    0 <= i < j ==> #[trigger] self.nmap@[i].0@ != name@,
                slot is Some ==> {
                    let js = slot.unwrap() as int;
                    0 <= js < j && self.nmap@[js].0@ == name@
                },
            decreases n - j,
        {
            if slot.is_none() && self.nmap[j].0 == key {
                slot = Some(j);
            }
            j += 1;
        }
        let ghost s = self.index_view();
        let ghost onames = self.name_seq();
        proof {
            assert(forall|j2: int|
                0 <= j2 < s.len() ==> (#[trigger] s[j2]) == (
                self.nmap@[j2].0@,
                seq![self.nmap@[j2].1 as int],
            ));
            lemma_singleton_names_distinct(onames, s);
        }
        match slot {
            Some(js) => {
                let p = self.nmap[js].1;
                proof {
                    assert(s[js as int].1[0] == p as int);
                    assert(s[js as int].1.contains(p as int));
                    assert(onames[p as int] == name@);
                    assert(self@[p as int].0 == name@);
                }
                let nr = &mut self.names[p];
                *nr = key;
                let er = &mut self.elems[p];
                *er = element;
                self.nmap.replace_entry(name, p);
                proof {
                    assert(has_key(s, name@)) by {
                        assert(s[js as int].0 == name@);
                    }
                    let j0 = key_slot(s, name@);
                    assert(s[j0].0 == name@);
                    if j0 != js as int {
                        assert(s[j0].0 != s[js as int].0);
                        assert(false);
                    }
                    assert(s[js as int] == (name@, seq![p as int]));
                    assert(self.index_view() =~~= s);
                    assert(self.name_seq() =~= onames);
                    assert(has_name(old(self)@, name@)) by {
                        assert(old(self)@[p as int].0 == name@);
                    }
                    let p0 = name_position(old(self)@, name@);
                    assert(old(self)@[p0].0 == name@);
                    assert(onames[p0] == name@);
                    if p0 != p as int {
                        assert(onames[p0] != onames[p as int]);
                        assert(false);
                    }
                    assert(self@ =~= old(self)@.update(p as int, (name@, element)));
                    assert(has_name(self@, name@)) by {
                        assert(self@[p as int].0 == name@);
                    }
                }
            },
            None => {
                let idx = self.names.len();
                self.names.push(key);
                self.elems.push(element);
                self.nmap.add_entry(name, idx);
                proof {
                    if has_key(s, name@) {
                        let j0 = key_slot(s, name@);
                        assert(s[j0].0 == old(self).nmap@[j0].0@);
                        assert(false);
                    }
                    if has_name(old(self)@, name@) {
                        let p0 = name_position(old(self)@, name@);
                        assert(old(self)@[p0].0 == name@);
                        assert(onames[p0] == name@);
                        assert(appears(s, onames[p0], p0));
                        let j1 = choose|j2: int|
                            0 <= j2 < s.len() && s[j2].0 == onames[p0] && s[j2].1.contains(p0);
                        assert(s[j1].0 == name@);
                        assert(false);
                    }
                    lemma_store_add_wf(onames, s, name@);
                    assert(self.name_seq() =~= onames.push(name@));
                    assert(self@ =~= old(self)@.push((name@, element)));
                    assert(idx as int == old(self)@.len());
                    assert(has_name(self@, name@)) by {
                        assert(self@[idx as int].0 == name@);
                    }
                }
            },
        }
    }

    /// Push under an explicit name; the same operation as `push`, kept
    /// for callers that spell the intent out.
    pub fn push_with_name(&mut self, name: &str, element: Element)
        requires
            old(self).wf(),
        ensures
            final(self).wf(),
            final(self)@ == unique_push(old(self)@, name@, element),
            has_name(final(self)@, name@),
    {
        self.push(name, element);
    }

    /// Push an element that reports its own name.
    pub fn push_named(&mut self, element: Element) where Element: Nameable
        requires
            old(self).wf(),
        ensures
            final(self).wf(),
            final(self)@ == unique_push(old(self)@, element.spec_name(), element),
            has_name(final(self)@, element.spec_name()),
    {
        let key: String = element.get_name().to_owned();
        self.push(key.as_str(), element);
    }

    /// The element held under `name`, or nothing for an unknown name.
    pub fn get_by_name(&self, name: &str) -> (r: Option<&Element>)
        requires
            self.wf(),
        ensures
            has_name(self@, name@) ==> r is Some && *r.unwrap() == self@[name_position(
                self@,
                name@,
            )].1,
            !has_name(self@, name@) ==> r is None,
    {
        let key: String = name.to_owned();
        let n = self.nmap.len();
        let mut slot: Option<usize> = None;
        let mut j: usize = 0;
        while j < n
            invariant
                n == self.nmap@.len(),
                j <= n,
                key@ == name@,
                slot is None ==> forall|i: int|
                    0 <= i < j ==> #[trigger] self.nmap@[i].0@ != name@,
                slot is Some ==> {
                    let js = slot.unwrap() as int;
                    0 <= js < j && self.nmap@[js].0@ == name@
                },
            decreases n - j,
        {
            if slot.is_none() && self.nmap[j].0 == key {
                slot = Some(j);
            }
            j += 1;
        }
        let ghost s = self.index_view();
        proof {
            assert(forall|j2: int|
                0 <= j2 < s.len() ==> (#[trigger] s[j2]) == (
                self.nmap@[j2].0@,
                seq![self.nmap@[j2].1 as int],
            ));
            lemma_singleton_names_distinct(self.name_seq(), s);
        }
        match slot {
            Some(js) => {
                let p = self.nmap[js].1;
                proof {
                    assert(s[js as int].1[0] == p as int);
                    assert(s[js as int].1.contains(p as int));
                    assert(self.name_seq()[p as int] == name@);
                    assert(has_name(self@, name@)) by {
                        assert(self@[p as int].0 == name@);
                    }
                    let p0 = name_position(self@, name@);
                    assert(self@[p0].0 == name@);
                    if p0 != p as int {
                        assert(self.name_seq()[p0] != self.name_seq()[p as int]);
                        assert(false);
                    }
                }
                Some(&self.elems[p])
            },
            None => {
                proof {
                    if has_name(self@, name@) {
                        let p0 = name_position(self@, name@);
                        assert(self@[p0].0 == name@);
                        assert(appears(s, self.name_seq()[p0], p0));
                        let j1 = choose|j2: int|
                            0 <= j2 < s.len() && s[j2].0 == self.name_seq()[p0] && s[
                                j2
                            ].1.contains(p0);
                        assert(s[j1].0 == self.nmap@[j1].0@);
                        assert(false);
                    }
                }
                None
            },
        }
    }

    /// The element held under a name the collection is known to hold;
    /// the checked counterpart is `get_by_name`.
    pub fn at_name(&self, name: &str) -> (r: &Element)
        requires
            self.wf(),
            has_name(self@, name@),
        ensures
            *r == self@[name_position(self@, name@)].1,
    {
        match self.get_by_name(name) {
            Some(e) => e,
            None => {
                proof {
                    assert(false);
                }
                &self.elems[0]
            },
        }
    }

    /// Build a collection by pushing each (name, element) pair in
    /// order, so duplicate names replace exactly as single pushes do.
    pub fn from(source: Vec<(String, Element)>) -> (r: Self)
        ensures
            r.wf(),
            r@ == unique_push_all(
                Seq::<(Seq<char>, Element)>::empty(),
                pairs_view(source@),
            ),
    {
        let ghost orig = source@;
        let ghost pv = pairs_view(source@);
        let ghost total = source@.len() as int;
        let mut src = source;
        let mut c = Self::new();
        proof {
            assert(pv.take(0) =~= Seq::<(Seq<char>, Element)>::empty());
            assert(src@ =~= orig.subrange(0, total));
        }
        while src.len() > 0
            invariant
                c.wf(),
                src@.len() <= total,
                pv == pairs_view(orig),
                pv.len() == total,
                src@ == orig.subrange(total - src@.len(), total),
                c@ == unique_push_all(
                    Seq::<(Seq<char>, Element)>::empty(),
                    pv.take(total - src@.len() as int),
                ),
            decreases src@.len(),
        {
            let ghost i = total - src@.len() as int;
            let pr = src.remove(0);
            c.push(pr.0.as_str(), pr.1);
            proof {
                assert(pr == orig[i]);
                assert(pv[i] == (pr.0@, pr.1));
                assert(pv.take(i + 1) =~= pv.take(i).push(pv[i]));
                lemma_unique_push_all_snoc(
                    Seq::<(Seq<char>, Element)>::empty(),
                    pv.take(i),
                    pv[i],
                );
                assert(src@ =~= orig.subrange(i + 1, total));
            }
        }
        proof {
            assert(pv.take(total) =~= pv);
        }
        c
    }
}


impl<Element> NamedElementsCollection<Element, Vec<usize>> {
    /// Push `element` under `name`: the entry is always appended at
    /// the end, however many elements already carry the name.
    pub fn push(&mut self, name: &str, element: Element)
        requires
            old(self).wf(),
        ensures
            final(self).wf(),
            final(self)@ == old(self)@.push((name@, element)),
            has_name(final(self)@, name@),
            !has_key(old(self).index_view(), name@) ==> final(self).index_view() == old(
                self
            ).index_view().push((name@, seq![old(self)@.len() as int])),
            has_key(old(self).index_view(), name@) ==> final(self).index_view() == old(
                self
            ).index_view().update(
                key_slot(old(self).index_view(), name@),
                (
                    name@,
                    old(self).index_view()[key_slot(old(self).index_view(), name@)].1.push(
                        old(self)@.len() as int,
                    ),
                ),
            ),
    {
        let idx = self.names.len();
        self.names.push(name.to_owned());
        self.elems.push(element);
        self.nmap.add_entry(name, idx);
        proof {
            let s = old(self).index_view();
            let onames = old(self).name_seq();
            lemma_store_add_wf(onames, s, name@);
            assert(self.name_seq() =~= onames.push(name@));
            assert(self@ =~= old(self)@.push((name@, element)));
            if has_key(s, name@) {
                let j0 = key_slot(s, name@);
                assert(self.index_view() == s.update(j0, (name@, s[j0].1.push(idx as int))));
            }
            assert(has_name(self@, name@)) by {
                assert(self@[idx as int].0 == name@);
            }
        }
    }

    /// Push under an explicit name; the same operation as `push`, kept
    /// for callers that spell the intent out.
    pub fn push_with_name(&mut self, name: &str, element: Element)
        requires
            old(self).wf(),
        ensures
            final(self).wf(),
            final(self)@ == old(self)@.push((name@, element)),
            has_name(final(self)@, name@),
    {
        self.push(name, element);
    }

    /// Push an element that reports its own name.
    pub fn push_named(&mut self, element: Element) where Element: Nameable
        requires
            old(self).wf(),
        ensures
            final(self).wf(),
            final(self)@ == old(self)@.push((element.spec_name(), element)),
            has_name(final(self)@, element.spec_name()),
    {
        let key: String = element.get_name().to_owned();
        self.push(key.as_str(), element);
    }

    /// Every element held under `name`, in push order, or nothing for
    /// an unknown name.
    pub fn get_by_name(&self, name: &str) -> (r: Option<Vec<&Element>>)
        requires
            self.wf(),
        ensures
            !has_name(self@, name@) ==> r is None,
            has_name(self@, name@) ==> r is Some && {
                let mp = matching_positions(self@, name@);
                let rv = r.unwrap();
                rv@.len() == mp.len() && (forall|k: int|
                    0 <= k < mp.len() ==> *(#[trigger] rv@[k]) == self@[mp[k]].1)
            },
    {
        let key: String = name.to_owned();
        let n = self.nmap.len();
        let mut slot: Option<usize> = None;
        let mut j: usize = 0;
        while j < n
            invariant
                n == self.nmap@.len(),
                j <= n,
                key@ == name@,
                slot is None ==> forall|i: int|
                    0 <= i < j ==> #[trigger] self.nmap@[i].0@ != name@,
                slot is Some ==> {
                    let js = slot.unwrap() as int;
                    0 <= js < j && self.nmap@[js].0@ == name@
                },
            decreases n - j,
        {
            if slot.is_none() && self.nmap[j].0 == key {
                slot = Some(j);
            }
            j += 1;
        }
        let ghost s = self.index_view();
        match slot {
            Some(js) => {
                proof {
                    assert(has_key(s, name@)) by {
                        assert(s[js as int].0 == name@);
                    }
                    let j0 = key_slot(s, name@);
                    assert(s[j0].0 == name@);
                    if j0 != js as int {
                        assert(s[j0].0 != s[js as int].0);
                        assert(false);
                    }
                    lemma_entry_is_matching(self@, self.name_seq(), s, name@);
                    assert(s[js as int].1 == matching_positions(self@, name@));
                    assert(has_name(self@, name@)) by {
                        assert(s[js as int].1.len() > 0);
                        let q = s[js as int].1[0];
                        assert(s[js as int].1.contains(q));
                        assert(self.name_seq()[q] == name@);
                        assert(self@[q].0 == name@);
                    }
                }
                let list = &self.nmap[js].1;
                let m = list.len();
                let mut rv: Vec<&Element> = Vec::new();
                let mut k: usize = 0;
                while k < m
                    invariant
                        self.wf(),
                        0 <= (js as int) < self.nmap@.len(),
                        list == &self.nmap@[js as int].1,
                        m == list@.len(),
                        k <= m,
                        s == self.index_view(),
                        s[js as int].1 == list@.map_values(|q: usize| q as int),
                        forall|k2: int|
                            0 <= k2 < s[js as int].1.len() ==> 0 <= #[trigger] s[js as int].1[k2]
                                < self@.len(),
                        rv@.len() == k,
                        forall|k2: int|
                            0 <= k2 < k ==> *(#[trigger] rv@[k2]) == self@[list@[k2] as int].1,
                    decreases m - k,
                {
                    let q = list[k];
                    proof {
                        assert(s[js as int].1[k as int] == q as int);
                    }
                    rv.push(&self.elems[q]);
                    k += 1;
                }
                proof {
                    let mp = matching_positions(self@, name@);
                    assert forall|k2: int| 0 <= k2 < mp.len() implies *(#[trigger] rv@[k2])
                        == self@[mp[k2]].1 by {
                        assert(mp[k2] == s[js as int].1[k2]);
                        assert(s[js as int].1[k2] == list@[k2] as int);
                    }
                }
                Some(rv)
            },
            None => {
                proof {
                    if has_name(self@, name@) {
                        let p0 = choose|p: int| 0 <= p < self@.len() && self@[p].0 == name@;
                        assert(self.name_seq()[p0] == name@);
                        assert(appears(s, self.name_seq()[p0], p0));
                        let j1 = choose|j2: int|
                            0 <= j2 < s.len() && s[j2].0 == self.name_seq()[p0] && s[
                                j2
                            ].1.contains(p0);
                        assert(s[j1].0 == self.nmap@[j1].0@);
                        assert(false);
                    }
                }
                None
            },
        }
    }

    /// Build a collection by pushing each (name, element) pair in
    /// order: the content is exactly the given pairs, duplicates kept.
    pub fn from(source: Vec<(String, Element)>) -> (r: Self)
        ensures
            r.wf(),
            r@ == pairs_view(source@),
    {
        let ghost orig = source@;
        let ghost pv = pairs_view(source@);
        let ghost total = source@.len() as int;
        let mut src = source;
        let mut c = Self::new();
        proof {
            assert(c@ =~= pv.take(0));
            assert(src@ =~= orig.subrange(0, total));
        }
        while src.len() > 0
            invariant
                c.wf(),
                src@.len() <= total,
                pv == pairs_view(orig),
                pv.len() == total,
                src@ == orig.subrange(total - src@.len(), total),
                c@ == pv.take(total - src@.len() as int),
            decreases src@.len(),
        {
            let ghost i = total - src@.len() as int;
            let pr = src.remove(0);
            c.push(pr.0.as_str(), pr.1);
            proof {
                assert(pr == orig[i]);
                assert(pv[i] == (pr.0@, pr.1));
                assert(c@ =~= pv.take(i + 1));
                assert(src@ =~= orig.subrange(i + 1, total));
            }
        }
        proof {
            assert(pv.take(total) =~= pv);
        }
        c
    }
}


/// Read-only iterator over a collection: yields each name and element
/// pair in position order.
pub struct NecIter<'a, Element> {
    names: &'a Vec<String>,
    elems: &'a Vec<Element>,
    pos: usize,
}

impl<'a, Element> NecIter<'a, Element> {
    /// The full content iterated over, in order.
    pub closed spec fn content(&self) -> Seq<(Seq<char>, Element)> {
        Seq::new(self.names@.len(), |p: int| (self.names@[p]@, self.elems@[p]))
    }

    /// How many pairs have been yielded so far.
    pub closed spec fn position(&self) -> int {
        self.pos as int
    }

    /// The iterator's own invariant.
    pub closed spec fn iter_wf(&self) -> bool {
        self.names@.len() == self.elems@.len() && self.pos <= self.names@.len()
    }

    /// The next name and element pair, or nothing once all have been
    /// yielded.
    pub fn next(&mut self) -> (r: Option<(&'a String, &'a Element)>)
        requires
            old(self).iter_wf(),
        ensures
            final(self).iter_wf(),
            final(self).content() == old(self).content(),
            old(self).position() >= old(self).content().len() ==> r is None && final(
                self
            ).position() == old(self).position(),
            old(self).position() < old(self).content().len() ==> r is Some && final(
                self
            ).position() == old(self).position() + 1 && r.unwrap().0@ == old(self).content()[old(
                self
            ).position()].0 && *r.unwrap().1 == old(self).content()[old(self).position()].1,
    {
        if self.pos < self.names.len() {
            let r = Some((&self.names[self.pos], &self.elems[self.pos]));
            self.pos = self.pos + 1;
            r
        } else {
            None
        }
    }
}

/// Mutable iterator over a collection: yields each element in position
/// order, for writing; the names are not reachable through it.
pub struct NecIterMut<'a, Element> {
    rem: &'a mut [Element],
}

/// Relies on Vec::as_mut_slice, together with the fact that vstd's
/// specification of it leaves open: a slice never changes its length,
/// so the vector observed after the borrow ends has exactly as many
/// elements as the slice was created with.
#[verifier::external_body]
fn vec_as_mut_slice<'a, Element>(v: &'a mut Vec<Element>) -> (s: &'a mut [Element])
    ensures
        s@ == old(v)@,
        final(v)@ == final(s)@,
        final(s)@.len() == old(v)@.len(),
{
    v.as_mut_slice()
}

impl<'a, Element> NecIterMut<'a, Element> {
    /// The elements not yet yielded, in order.
    pub closed spec fn remaining(&self) -> Seq<Element> {
        self.rem@
    }

    /// The next element, handed out for writing, or nothing once all
    /// have been yielded.
    pub fn next(&mut self) -> (r: Option<&'a mut Element>)
        ensures
            old(self).remaining().len() == 0 ==> r is None && final(self).remaining() == old(
                self
            ).remaining(),
            old(self).remaining().len() > 0 ==> r is Some && *r.unwrap() == old(
                self
            ).remaining()[0] && final(self).remaining() == old(self).remaining().skip(1),
    {
        let mut taken: &'a mut [Element] = &mut [];
        core::mem::swap(&mut self.rem, &mut taken);
        if taken.len() == 0 {
            self.rem = taken;
            None
        } else {
            let (first, rest) = taken.split_at_mut(1);
            self.rem = rest;
            let r = <[Element]>::first_mut(first);
            proof {
                assert(self.rem@ == old(self).remaining().skip(1));
            }
            r
        }
    }
}

/// Consuming iterator over a collection: yields each entry as an owned
/// `ElementBundle`, in position order.
pub struct NecIntoIterator<Element> {
    names: Vec<String>,
    elems: Vec<Element>,
}

impl<Element> NecIntoIterator<Element> {
    /// The entries not yet yielded, in order.
    pub closed spec fn remaining(&self) -> Seq<(Seq<char>, Element)> {
        Seq::new(self.names@.len(), |p: int| (self.names@[p]@, self.elems@[p]))
    }

    /// The iterator's own invariant.
    pub closed spec fn iter_wf(&self) -> bool {
        self.names@.len() == self.elems@.len()
    }

    /// The next entry, or nothing once all have been yielded.
    pub fn next(&mut self) -> (r: Option<ElementBundle<Element>>)
        requires
            old(self).iter_wf(),
        ensures
            final(self).iter_wf(),
            old(self).remaining().len() == 0 ==> r is None && final(self).remaining() == old(
                self
            ).remaining(),
            old(self).remaining().len() > 0 ==> r is Some && r.unwrap().name@ == old(
                self
            ).remaining()[0].0 && r.unwrap().elem == old(self).remaining()[0].1 && final(
                self
            ).remaining() == old(self).remaining().skip(1),
    {
        if self.names.len() > 0 {
            let name = self.names.remove(0);
            let elem = self.elems.remove(0);
            proof {
                assert(self.remaining() =~= old(self).remaining().skip(1));
            }
            Some(ElementBundle { elem, name })
        } else {
            proof {
                assert(self.remaining() =~= old(self).remaining());
            }
            None
        }
    }
}

impl<Element, Indexes: Indexable> NamedElementsCollection<Element, Indexes> where
    Vec<(String, Indexes)>: Adjustable,
 {
    /// A read-only iterator over the collection, from the first
    /// position.
    pub fn iter<'a>(&'a self) -> (it: NecIter<'a, Element>)
        requires
            self.wf(),
        ensures
            it.iter_wf(),
            it.content() == self@,
            it.position() == 0,
    {
        NecIter { names: &self.names, elems: &self.elems, pos: 0 }
    }

    /// A mutable iterator over the collection's elements, from the
    /// first position.  Only elements can be written through it: every
    /// name, and the name index with it, stays as it was.
    pub fn iter_mut<'a>(&'a mut self) -> (it: NecIterMut<'a, Element>)
        requires
            old(self).wf(),
        ensures
            it.remaining() == old(self)@.map_values(|pr: (Seq<char>, Element)| pr.1),
            final(self).wf(),
            final(self)@.len() == old(self)@.len(),
            forall|i: int|
                0 <= i < old(self)@.len() ==> (#[trigger] final(self)@[i]).0 == old(self)@[i].0,
            final(self).index_view() == old(self).index_view(),
    {
        let s = vec_as_mut_slice(&mut self.elems);
        proof {
            assert(s@ =~= old(self)@.map_values(|pr: (Seq<char>, Element)| pr.1));
        }
        NecIterMut { rem: s }
    }

    /// Consume the collection into an iterator over its entries.
    pub fn into_iter(self) -> (it: NecIntoIterator<Element>)
        requires
            self.wf(),
        ensures
            it.iter_wf(),
            it.remaining() == self@,
    {
        let NamedElementsCollection { names, elems, nmap } = self;
        proof {
            assert(Seq::new(names@.len(), |p: int| (names@[p]@, elems@[p])) =~= self@);
        }
        NecIntoIterator { names, elems }
    }
}


impl<Element: Clone> Clone for NamedElementsCollection<Element, usize> {
    /// The clone holds the same names in the same order, with the same
    /// index beside them; each element is whatever its own `clone`
    /// returns, rebuilt entry by entry so the two copies share
    /// nothing.
    fn clone(&self) -> (r: Self)
        ensures
            self.wf() ==> r.wf(),
            r@.len() == self@.len(),
            forall|p: int| 0 <= p < self@.len() ==> (#[trigger] r@[p]).0 == self@[p].0,
            self.wf() ==> forall|p: int|
                0 <= p < self@.len() ==> vstd::pervasive::cloned::<Element>(
                    self@[p].1,
                    (#[trigger] r@[p]).1,
                ),
            r.index_view() == self.index_view(),
    {
        let n = self.nmap.len();
        let mut nmap2: Vec<(String, usize)> = Vec::new();
        let mut j: usize = 0;
        while j < n
            invariant
                n == self.nmap@.len(),
                j <= n,
                nmap2@.len() == j,
                forall|i: int|
                    0 <= i < j ==> (#[trigger] nmap2@[i]).0@ == self.nmap@[i].0@ && nmap2@[i].1
                        == self.nmap@[i].1,
            decreases n - j,
        {
            let e = &self.nmap[j];
            nmap2.push((e.0.clone(), e.1));
            j += 1;
        }
        let r = NamedElementsCollection {
            names: self.names.clone(),
            elems: self.elems.clone(),
            nmap: nmap2,
        };
        proof {
            assert(r.names@ =~= self.names@) by {
                assert forall|i: int| 0 <= i < self.names@.len() implies r.names@[i]
                    == self.names@[i] by {
                    assert(vstd::pervasive::cloned::<String>(self.names@[i], r.names@[i]));
                }
            }
            assert(r.index_view() =~~= self.index_view());
            assert(r@.len() == self@.len());
            if self.wf() {
                assert(r.name_seq() =~= self.name_seq());
                assert forall|p: int| 0 <= p < self@.len() implies vstd::pervasive::cloned::<
                    Element,
                >(self@[p].1, (#[trigger] r@[p]).1) by {
                    assert(r@[p].1 == r.elems@[p]);
                    assert(vstd::pervasive::cloned::<Element>(self.elems@[p], r.elems@[p]));
                }
            }
        }
        r
    }
}

impl<Element: Clone> Clone for NamedElementsCollection<Element, Vec<usize>> {
    /// The clone holds the same names in the same order, with the same
    /// index beside them; each element is whatever its own `clone`
    /// returns, rebuilt entry by entry so the two copies share
    /// nothing.
    fn clone(&self) -> (r: Self)
        ensures
            self.wf() ==> r.wf(),
            r@.len() == self@.len(),
            forall|p: int| 0 <= p < self@.len() ==> (#[trigger] r@[p]).0 == self@[p].0,
            self.wf() ==> forall|p: int|
                0 <= p < self@.len() ==> vstd::pervasive::cloned::<Element>(
                    self@[p].1,
                    (#[trigger] r@[p]).1,
                ),
            r.index_view() == self.index_view(),
    {
        let n = self.nmap.len();
        let mut nmap2: Vec<(String, Vec<usize>)> = Vec::new();
        let mut j: usize = 0;
        while j < n
            invariant
                n == self.nmap@.len(),
                j <= n,
                nmap2@.len() == j,
                forall|i: int|
                    0 <= i < j ==> (#[trigger] nmap2@[i]).0@ == self.nmap@[i].0@ && nmap2@[i].1@
                        == self.nmap@[i].1@,
            decreases n - j,
        {
            let e = &self.nmap[j];
            let list = e.1.clone();
            proof {
                assert(list@ =~= self.nmap@[j as int].1@) by {
                    assert forall|k: int| 0 <= k < self.nmap@[j as int].1@.len() implies list@[k]
                        == self.nmap@[j as int].1@[k] by {
                        assert(vstd::pervasive::cloned::<usize>(
                            self.nmap@[j as int].1@[k],
                            list@[k],
                        ));
                    }
                }
            }
            nmap2.push((e.0.clone(), list));
            j += 1;
        }
        let r = NamedElementsCollection {
            names: self.names.clone(),
            elems: self.elems.clone(),
            nmap: nmap2,
        };
        proof {
            assert(r.names@ =~= self.names@) by {
                assert forall|i: int| 0 <= i < self.names@.len() implies r.names@[i]
                    == self.names@[i] by {
                    assert(vstd::pervasive::cloned::<String>(self.names@[i], r.names@[i]));
                }
            }
            assert(r.index_view() =~~= self.index_view());
            assert(r@.len() == self@.len());
            if self.wf() {
                assert(r.name_seq() =~= self.name_seq());
                assert forall|p: int| 0 <= p < self@.len() implies vstd::pervasive::cloned::<
                    Element,
                >(self@[p].1, (#[trigger] r@[p]).1) by {
                    assert(r@[p].1 == r.elems@[p]);
                    assert(vstd::pervasive::cloned::<Element>(self.elems@[p], r.elems@[p]));
                }
            }
        }
        r
    }
}


/// Size agreement: in a collection holding its invariant the name
/// index and the store describe the same positions.  Every bound
/// position is live and carries its entry's name, every live position
/// is bound under its own name, and each entry lists exactly the
/// positions of its name in increasing order — so the position lists,
/// taken together, cover 0 .. len with nothing left over.
pub proof fn lemma_index_partition<Element, Indexes: Indexable>(
    c: &NamedElementsCollection<Element, Indexes>,
) where Vec<(String, Indexes)>: Adjustable
    requires
        c.wf(),
    ensures
        forall|p: int| 0 <= p < c@.len() ==> appears(c.index_view(), (#[trigger] c@[p]).0, p),
        forall|j: int, k: int|
            #![trigger c.index_view()[j].1[k]]
            0 <= j < c.index_view().len() && 0 <= k < c.index_view()[j].1.len() ==> {
                let q = c.index_view()[j].1[k];
                0 <= q < c@.len() && c@[q].0 == c.index_view()[j].0
            },
        forall|j: int|
            0 <= j < c.index_view().len() ==> (#[trigger] c.index_view()[j]).1
                == matching_positions(c@, c.index_view()[j].0),
{
    let s = c.index_view();
    let names = c.name_seq();
    assert forall|p: int| 0 <= p < c@.len() implies appears(s, (#[trigger] c@[p]).0, p) by {
        assert(c@[p].0 == names[p]);
        assert(appears(s, names[p], p));
    }
    assert forall|j: int, k: int|
        #![trigger s[j].1[k]]
        0 <= j < s.len() && 0 <= k < s[j].1.len() implies {
        let q = s[j].1[k];
        0 <= q < c@.len() && c@[q].0 == s[j].0
    } by {
        assert(names[s[j].1[k]] == s[j].0);
    }
    assert forall|j: int| 0 <= j < s.len() implies (#[trigger] s[j]).1 == matching_positions(
        c@,
        s[j].0,
    ) by {
        assert(has_key(s, s[j].0)) by {
            assert(s[j].0 == s[j].0);
        }
        let j0 = key_slot(s, s[j].0);
        assert(s[j0].0 == s[j].0);
        if j0 != j {
            assert(s[j0].0 != s[j].0);
            assert(false);
        }
        lemma_entry_is_matching(c@, names, s, s[j].0);
    }
}

/// Name fidelity under replacement: a unique push binds the pushed
/// name to exactly one position — the one it already had, or a fresh
/// one at the end — holding the pushed element, and every other
/// position keeps its name and element.
pub proof fn lemma_unique_push_names<Element>(
    v: Seq<(Seq<char>, Element)>,
    n: Seq<char>,
    e: Element,
)
    requires
        forall|p1: int, p2: int|
            #![trigger v[p1].0, v[p2].0]
            0 <= p1 < p2 < v.len() ==> v[p1].0 != v[p2].0,
    ensures
        ({
            let v1 = unique_push(v, n, e);
            let q = name_position(v1, n);
            &&& has_name(v1, n)
            &&& 0 <= q < v1.len()
            &&& v1[q] == (n, e)
            &&& forall|p: int| 0 <= p < v1.len() && p != q ==> #[trigger] v1[p] == v[p]
            &&& (has_name(v, n) ==> v1.len() == v.len() && q == name_position(v, n))
            &&& (!has_name(v, n) ==> v1.len() == v.len() + 1 && q == v.len())
        }),
{
    let v1 = unique_push(v, n, e);
    if has_name(v, n) {
        let q0 = name_position(v, n);
        assert(v[q0].0 == n);
        assert(v1 == v.update(q0, (n, e)));
        assert(has_name(v1, n)) by {
            assert(v1[q0].0 == n);
        }
        let q = name_position(v1, n);
        assert(v1[q].0 == n);
        if q != q0 {
            assert(v[q].0 == v1[q].0);
            assert(v[q].0 != v[q0].0);
            assert(false);
        }
    } else {
        assert(v1 == v.push((n, e)));
        assert(has_name(v1, n)) by {
            assert(v1[v.len() as int].0 == n);
        }
        let q = name_position(v1, n);
        assert(v1[q].0 == n);
        if q != v.len() as int {
            assert(v[q].0 == v1[q].0);
            assert(has_name(v, n)) by {
                assert(v[q].0 == n);
            }
            assert(false);
        }
    }
}

/// Replacement is idempotent in the unique strategy: pushing a name
/// twice leaves the length of the first push unchanged, and the one
/// element under the name is the second one.
pub proof fn lemma_unique_replace_idempotent<Element>(
    v: Seq<(Seq<char>, Element)>,
    n: Seq<char>,
    e1: Element,
    e2: Element,
)
    requires
        forall|p1: int, p2: int|
            #![trigger v[p1].0, v[p2].0]
            0 <= p1 < p2 < v.len() ==> v[p1].0 != v[p2].0,
    ensures
        ({
            let v1 = unique_push(v, n, e1);
            let v2 = unique_push(v1, n, e2);
            let q = name_position(v1, n);
            &&& has_name(v1, n)
            &&& 0 <= q < v1.len()
            &&& v1[q] == (n, e1)
            &&& v2 == v1.update(q, (n, e2))
            &&& v2.len() == v1.len()
        }),
{
    let v1 = unique_push(v, n, e1);
    if has_name(v, n) {
        let q0 = name_position(v, n);
        assert(v[q0].0 == n);
        assert(v1 == v.update(q0, (n, e1)));
        assert(has_name(v1, n)) by {
            assert(v1[q0].0 == n);
        }
        let q = name_position(v1, n);
        assert(v1[q].0 == n);
        if q != q0 {
            assert(v[q].0 == v1[q].0);
            assert(v[q].0 != v[q0].0);
            assert(false);
        }
        assert(has_name(v1, n));
        assert(unique_push(v1, n, e2) == v1.update(q, (n, e2)));
    } else {
        assert(v1 == v.push((n, e1)));
        assert(has_name(v1, n)) by {
            assert(v1[v.len() as int].0 == n);
        }
        let q = name_position(v1, n);
        assert(v1[q].0 == n);
        if q != v.len() as int {
            assert(v[q].0 == v1[q].0);
            assert(has_name(v, n)) by {
                assert(v[q].0 == n);
            }
            assert(false);
        }
        assert(unique_push(v1, n, e2) == v1.update(q, (n, e2)));
    }
}

/// Appending an entry moves the matching positions of a name forward
/// by exactly that entry: its own name gains the new last position,
/// every other name keeps its positions.
pub proof fn lemma_matching_push<Element>(
    v: Seq<(Seq<char>, Element)>,
    n: Seq<char>,
    x: (Seq<char>, Element),
)
    ensures
        x.0 == n ==> matching_positions(v.push(x), n) == matching_positions(v, n).push(
            v.len() as int,
        ),
        x.0 != n ==> matching_positions(v.push(x), n) == matching_positions(v, n),
{
    let w = v.push(x);
    let mp = matching_positions(v, n);
    let mpw = matching_positions(w, n);
    lemma_range_filter(v.len() as int, name_pred(v, n), Seq::new(v.len(), |p: int| p));
    lemma_range_filter(w.len() as int, name_pred(w, n), Seq::new(w.len(), |p: int| p));
    let cand = if x.0 == n {
        mp.push(v.len() as int)
    } else {
        mp
    };
    assert(ascending(cand)) by {
        if x.0 == n {
            assert forall|a: int, b: int| 0 <= a < b < cand.len() implies cand[a] < cand[b] by {
                if b < cand.len() - 1 {
                    assert(mp[a] < mp[b]);
                } else {
                    assert(cand[a] == mp[a]);
                    assert(mp.contains(mp[a]));
                    assert(0 <= mp[a] < v.len());
                }
            }
        }
    }
    assert forall|q: int|
        #![trigger mpw.contains(q)]
        #![trigger cand.contains(q)]
        mpw.contains(q) <==> cand.contains(q) by {
        if mpw.contains(q) {
            assert(0 <= q < w.len() && w[q].0 == n);
            if q < v.len() {
                assert(v[q].0 == n);
                assert(mp.contains(q));
                if x.0 == n {
                    let k = choose|k: int| 0 <= k < mp.len() && mp[k] == q;
                    assert(cand[k] == q);
                }
                assert(cand.contains(q));
            } else {
                assert(w[q].0 == x.0);
                assert(x.0 == n);
                assert(cand[cand.len() - 1] == q);
                assert(cand.contains(q));
            }
        }
        if cand.contains(q) {
            let k = choose|k: int| 0 <= k < cand.len() && cand[k] == q;
            if x.0 == n && k == cand.len() - 1 {
                assert(q == v.len() as int);
                assert(w[q].0 == n);
            } else {
                assert(mp[k] == q);
                assert(mp.contains(q));
                assert(0 <= q < v.len() && v[q].0 == n);
                assert(w[q].0 == n);
            }
            assert(mpw.contains(q));
        }
    }
    lemma_ascending_same_members(mpw, cand);
}

/// The same name pushed over and over, as one content transformation:
/// each element in turn is appended under the name.
pub open spec fn multi_push_all<Element>(
    v: Seq<(Seq<char>, Element)>,
    n: Seq<char>,
    es: Seq<Element>,
) -> Seq<(Seq<char>, Element)>
    decreases es.len(),
{
    if es.len() == 0 {
        v
    } else {
        multi_push_all(v.push((n, es[0])), n, es.skip(1))
    }
}

/// Append semantics: pushing a name k times appends k entries, the
/// earlier content stays in place, and the positions matching the name
/// afterwards are the earlier ones followed by the k new positions in
/// push order — so lookup by the name yields the pushed elements in
/// the order they went in.
pub proof fn lemma_multi_append<Element>(
    v: Seq<(Seq<char>, Element)>,
    n: Seq<char>,
    es: Seq<Element>,
)
    ensures
        multi_push_all(v, n, es).len() == v.len() + es.len(),
        forall|q: int| 0 <= q < v.len() ==> #[trigger] multi_push_all(v, n, es)[q] == v[q],
        forall|i: int|
            0 <= i < es.len() ==> #[trigger] multi_push_all(v, n, es)[v.len() + i] == (n, es[i]),
        matching_positions(multi_push_all(v, n, es), n) == matching_positions(v, n) + Seq::new(
            es.len(),
            |i: int| v.len() + i,
        ),
    decreases es.len(),
{
    let out = multi_push_all(v, n, es);
    if es.len() == 0 {
        assert(out == v);
        assert(matching_positions(v, n) + Seq::new(0, |i: int| v.len() + i) =~= matching_positions(
            v,
            n,
        ));
    } else {
        let w = v.push((n, es[0]));
        lemma_multi_append(w, n, es.skip(1));
        assert(out == multi_push_all(w, n, es.skip(1)));
        lemma_matching_push(v, n, (n, es[0]));
        assert forall|i: int| 0 <= i < es.len() implies #[trigger] out[v.len() + i] == (
        n,
        es[i],
        ) by {
            if i == 0 {
                assert(out[w.len() - 1] == w[w.len() - 1]);
            } else {
                assert(out[w.len() + (i - 1)] == (n, es.skip(1)[i - 1]));
            }
        }
        assert(matching_positions(out, n) =~= matching_positions(v, n) + Seq::new(
            es.len(),
            |i: int| v.len() + i,
        )) by {
            assert(matching_positions(out, n) == matching_positions(w, n) + Seq::new(
                es.skip(1).len(),
                |i: int| w.len() + i,
            ));
            assert(matching_positions(w, n) == matching_positions(v, n).push(v.len() as int));
        }
    }
}

/// Round trip for distinct names: with no name repeated, building by
/// replace-in-place pushes reproduces the pairs exactly, in order.
pub proof fn lemma_unique_from_distinct<Element>(pairs: Seq<(Seq<char>, Element)>)
    requires
        forall|p1: int, p2: int|
            #![trigger pairs[p1].0, pairs[p2].0]
            0 <= p1 < p2 < pairs.len() ==> pairs[p1].0 != pairs[p2].0,
    ensures
        unique_push_all(Seq::<(Seq<char>, Element)>::empty(), pairs) == pairs,
{
    lemma_unique_push_all_disjoint(Seq::<(Seq<char>, Element)>::empty(), pairs);
    assert(Seq::<(Seq<char>, Element)>::empty() + pairs =~= pairs);
}

/// Pushing pairs whose names are distinct and all new appends them.
proof fn lemma_unique_push_all_disjoint<Element>(
    v: Seq<(Seq<char>, Element)>,
    pairs: Seq<(Seq<char>, Element)>,
)
    requires
        forall|p1: int, p2: int|
            #![trigger pairs[p1].0, pairs[p2].0]
            0 <= p1 < p2 < pairs.len() ==> pairs[p1].0 != pairs[p2].0,
        forall|p: int| 0 <= p < pairs.len() ==> !has_name(v, (#[trigger] pairs[p]).0),
    ensures
        unique_push_all(v, pairs) == v + pairs,
    decreases pairs.len(),
{
    if pairs.len() == 0 {
        assert(v + pairs =~= v);
    } else {
        assert(!has_name(v, pairs[0].0));
        let w = v.push(pairs[0]);
        assert(unique_push(v, pairs[0].0, pairs[0].1) == w);
        let rest = pairs.skip(1);
        assert forall|p1: int, p2: int|
            #![trigger rest[p1].0, rest[p2].0]
            0 <= p1 < p2 < rest.len() implies rest[p1].0 != rest[p2].0 by {
            assert(pairs[p1 + 1].0 != pairs[p2 + 1].0);
        }
        assert forall|p: int| 0 <= p < rest.len() implies !has_name(w, (#[trigger] rest[p]).0) by {
            assert(rest[p] == pairs[p + 1]);
            if has_name(w, pairs[p + 1].0) {
                let q = name_position(w, pairs[p + 1].0);
                assert(w[q].0 == pairs[p + 1].0);
                if q < v.len() {
                    assert(has_name(v, pairs[p + 1].0)) by {
                        assert(v[q].0 == pairs[p + 1].0);
                    }
                    assert(false);
                } else {
                    assert(w[q].0 == pairs[0].0);
                    assert(pairs[0].0 != pairs[p + 1].0);
                    assert(false);
                }
            }
        }
        lemma_unique_push_all_disjoint(w, rest);
        assert(unique_push_all(v, pairs) == unique_push_all(w, rest));
        assert(w + rest =~= v + pairs);
    }
}


impl<Element, Indexes: Indexable> Default for NamedElementsCollection<Element, Indexes> where
    Vec<(String, Indexes)>: Adjustable,
 {
    /// An empty collection.
    fn default() -> (r: Self)
        ensures
            r.wf(),
            r@ == Seq::<(Seq<char>, Element)>::empty(),
    {
        Self::new()
    }
}

} // verus!
