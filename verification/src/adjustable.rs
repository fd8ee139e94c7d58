//! The name index of a collection and the two strategies for keeping it.
//!
//! A name index binds names to positions of the ordered store.  Its
//! abstract content is a sequence of entries, each pairing a name with
//! the ordered list of positions bound to that name.  The unique
//! strategy keeps one position per name; the multi strategy keeps an
//! ordered list per name.  Both are kept behind the `Adjustable` trait,
//! whose contracts describe what each maintenance step does to the
//! abstract content.
use vstd::prelude::*;

verus! {

/// Abstract content of a name index: entries in insertion order, each a
/// name with the ordered positions bound to it.
pub type IndexView = Seq<(Seq<char>, Seq<int>)>;

/// Whether the index has an entry for `name`.
pub open spec fn has_key(s: IndexView, name: Seq<char>) -> bool {
    exists|j: int| 0 <= j < s.len() && s[j].0 == name
}

/// The slot of the entry for `name`; meaningful when `has_key` holds
/// and keys are distinct.
pub open spec fn key_slot(s: IndexView, name: Seq<char>) -> int {
    choose|j: int| 0 <= j < s.len() && s[j].0 == name
}

/// The positions bound to `name`, or the empty sequence for an unknown name.
pub open spec fn positions_of(s: IndexView, name: Seq<char>) -> Seq<int> {
    if has_key(s, name) {
        s[key_slot(s, name)].1
    } else {
        Seq::<int>::empty()
    }
}

/// The names of the index, in entry order.
pub open spec fn key_seq(s: IndexView) -> Seq<Seq<char>> {
    s.map_values(|e: (Seq<char>, Seq<int>)| e.0)
}

/// An index is well formed when no name occurs twice, no position list
/// is empty, and every position list is strictly increasing.
pub open spec fn index_wf(s: IndexView) -> bool {
    &&& forall|j1: int, j2: int|
        #![trigger s[j1].0, s[j2].0]
        0 <= j1 < j2 < s.len() ==> s[j1].0 != s[j2].0
    &&& forall|j: int| 0 <= j < s.len() ==> #[trigger] s[j].1.len() > 0
    &&& forall|j: int, a: int, b: int|
        #![trigger s[j].1[a], s[j].1[b]]
        0 <= j < s.len() && 0 <= a < b < s[j].1.len() ==> s[j].1[a] < s[j].1[b]
}

/// Remove the first occurrence of `p` from `l`, if there is one.
pub open spec fn strike(l: Seq<int>, p: int) -> Seq<int> {
    if l.contains(p) {
        l.remove(l.index_of(p))
    } else {
        l
    }
}

/// Decrement every position greater than `p`.
pub open spec fn shift_down(l: Seq<int>, p: int) -> Seq<int> {
    l.map(|k: int, q: int| if q > p { q - 1 } else { q })
}

/// What deleting the binding `name -> p` does to a whole index: `p` is
/// struck from `name`'s list, the entry disappears if that list becomes
/// empty, and every position greater than `p` anywhere in the index
/// drops by one, mirroring the shift of the ordered store.
pub open spec fn delete_view(s: IndexView, name: Seq<char>, p: int) -> IndexView {
    let j = key_slot(s, name);
    let struck = strike(s[j].1, p);
    let t = s.update(j, (name, struck)).map_values(
        |e: (Seq<char>, Seq<int>)| (e.0, shift_down(e.1, p)),
    );
    if struck.len() == 0 {
        t.remove(j)
    } else {
        t
    }
}

/// The maintenance steps a name index must offer.  The collection keeps
/// one index per store; after every store mutation it calls exactly one
/// of these so the two structures stay in step.
pub trait Adjustable: Sized {
    /// The abstract content of the index.
    spec fn entry_view(&self) -> IndexView;

    /// An index with no entries.
    fn empty_index() -> (r: Self)
        ensures
            r.entry_view() == Seq::<(Seq<char>, Seq<int>)>::empty(),
    ;

    /// Drop every entry.
    fn clear_entries(&mut self)
        ensures
            final(self).entry_view() == Seq::<(Seq<char>, Seq<int>)>::empty(),
    ;

    /// Whether the index has an entry for `name`.
    fn contains_key(&self, name: &str) -> (r: bool)
        ensures
            r == has_key(self.entry_view(), name@),
    ;

    /// The names of the index, in entry order.
    fn keys(&self) -> (r: Vec<String>)
        ensures
            r@.map_values(|s: String| s@) == key_seq(self.entry_view()),
    ;

    /// Bind position `index` to `name`.  A name new to the index gets a
    /// fresh singleton entry at the end; what a strategy does with a
    /// name already present is its own affair (the multi strategy
    /// appends, see its implementation).
    fn add_entry(&mut self, name: &str, index: usize)
        ensures
            !has_key(old(self).entry_view(), name@) ==> final(self).entry_view() == old(
                self
            ).entry_view().push((name@, seq![index as int])),
    ;

    /// Remove the binding `name -> index`, drop the entry if that was
    /// its last position, and renumber every position above `index`.
    fn delete_entry(&mut self, name: &str, index: usize)
        ensures
            index_wf(old(self).entry_view()) && has_key(old(self).entry_view(), name@)
                && positions_of(old(self).entry_view(), name@).contains(index as int) ==> final(
                self
            ).entry_view() == delete_view(old(self).entry_view(), name@, index as int),
    ;

    /// Refresh the binding of a name that is already present.  No
    /// strategy gains or loses a name here; the unique strategy rebinds
    /// the name to `index` (see its implementation).
    fn replace_entry(&mut self, name: &str, index: usize)
        ensures
            key_seq(final(self).entry_view()) == key_seq(old(self).entry_view()),
    ;
}

/// The unique strategy: one position per name, kept as a vector of
/// `(name, position)` pairs with pairwise distinct names.
impl Adjustable for Vec<(String, usize)> {
    /// Each binding shows up as a singleton position list.
    open spec fn entry_view(&self) -> IndexView {
        self@.map(|j: int, e: (String, usize)| (e.0@, seq![e.1 as int]))
    }

    fn empty_index() -> (r: Self)
        ensures
            r.entry_view() == Seq::<(Seq<char>, Seq<int>)>::empty(),
    {
        let r: Vec<(String, usize)> = Vec::new();
        proof {
            assert(r.entry_view() =~= Seq::<(Seq<char>, Seq<int>)>::empty());
        }
        r
    }

    fn clear_entries(&mut self)
        ensures
            final(self).entry_view() == Seq::<(Seq<char>, Seq<int>)>::empty(),
    {
        self.clear();
        proof {
            assert(self.entry_view() =~= Seq::<(Seq<char>, Seq<int>)>::empty());
        }
    }

    fn contains_key(&self, name: &str) -> (r: bool)
        ensures
            r == has_key(self.entry_view(), name@),
    {
        let key: String = name.to_owned();
        let n = self.len();
        let mut j: usize = 0;
        while j < n
            invariant
                n == self@.len(),
                j <= n,
                key@ == name@,
                forall|i: int| 0 <= i < j ==> #[trigger] self@[i].0@ != name@,
            decreases n - j,
        {
            if self[j].0 == key {
                proof {
                    assert(self.entry_view()[j as int].0 == name@);
                }
                return true;
            }
            j += 1;
        }
        proof {
            if has_key(self.entry_view(), name@) {
                let j0 = key_slot(self.entry_view(), name@);
                assert(self.entry_view()[j0].0 == self@[j0].0@);
                assert(false);
            }
        }
        false
    }

    fn keys(&self) -> (r: Vec<String>)
        ensures
            r@.map_values(|s: String| s@) == key_seq(self.entry_view()),
    {
        let n = self.len();
        let mut r: Vec<String> = Vec::new();
        let mut j: usize = 0;
        while j < n
            invariant
                n == self@.len(),
                j <= n,
                r@.len() == j,
                forall|i: int| 0 <= i < j ==> #[trigger] r@[i]@ == self@[i].0@,
            decreases n - j,
        {
            r.push(self[j].0.clone());
            j += 1;
        }
        proof {
            assert(r@.map_values(|s: String| s@) =~= key_seq(self.entry_view()));
        }
        r
    }

    /// A new binding goes to the end, whatever the name; callers bind a
    /// name that is already present through `replace_entry` instead.
    fn add_entry(&mut self, name: &str, index: usize)
        ensures
            final(self).entry_view() == old(self).entry_view().push((name@, seq![index as int])),
    {
        self.push((name.to_owned(), index));
        proof {
            assert(self.entry_view() =~~= old(self).entry_view().push(
                (name@, seq![index as int]),
            ));
        }
    }

    /// Strike the binding `name -> index` and renumber what is above it.
    fn delete_entry(&mut self, name: &str, index: usize) {
        let key: String = name.to_owned();
        let n = self.len();
        let mut slot: Option<usize> = None;
        let mut j: usize = 0;
        while j < n
            invariant
                n == self@.len(),
                j <= n,
                key@ == name@,
                self@ == old(self)@,
                slot is None ==> forall|i: int| 0 <= i < j ==> #[trigger] self@[i].0@ != name@,
                slot is Some ==> {
                    let js = slot.unwrap() as int;
                    0 <= js < j && self@[js].0@ == name@
                },
            decreases n - j,
        {
            if slot.is_none() && self[j].0 == key {
                slot = Some(j);
            }
            j += 1;
        }
        let ghost ov = old(self).entry_view();
        let ghost guard = index_wf(ov) && has_key(ov, name@) && positions_of(ov, name@).contains(
            index as int,
        );
        match slot {
            Some(js) => {
                self.remove(js);
                let ghost mid = self@;
                let m = self.len();
                let mut i: usize = 0;
                while i < m
                    invariant
                        m == self@.len(),
                        mid.len() == m,
                        i <= m,
                        forall|t: int|
                            i <= t < m ==> #[trigger] self@[t] == mid[t],
                        forall|t: int|
                            #![trigger self@[t]]
                            0 <= t < i ==> self@[t].0 == mid[t].0 && self@[t].1 == (
                            if mid[t].1 > index {
                                (mid[t].1 - 1) as usize
                            } else {
                                mid[t].1
                            }),
                    decreases m - i,
                {
                    let e = &mut self[i];
                    if e.1 > index {
                        e.1 = e.1 - 1;
                    }
                    i += 1;
                }
                proof {
                    if guard {
                        lemma_unique_delete_matches(ov, old(self)@, self@, name@, index as int, js as int);
                    }
                }
            },
            None => {
                proof {
                    if guard {
                        let j0 = key_slot(ov, name@);
                        assert(ov[j0] == (old(self)@[j0].0@, seq![old(self)@[j0].1 as int]));
                        assert(false);
                    }
                }
            },
        }
    }

    /// Rebind a name that is already present; an absent name is left
    /// alone, so no binding is ever created here.
    fn replace_entry(&mut self, name: &str, index: usize)
        ensures
            index_wf(old(self).entry_view()) && has_key(old(self).entry_view(), name@)
                ==> final(self).entry_view() == old(self).entry_view().update(
                key_slot(old(self).entry_view(), name@),
                (name@, seq![index as int]),
            ),
            !has_key(old(self).entry_view(), name@) ==> final(self)@ == old(self)@,
    {
        let key: String = name.to_owned();
        let n = self.len();
        let mut j: usize = 0;
        while j < n
            invariant
                n == self@.len(),
                j <= n,
                key@ == name@,
                self@ == old(self)@,
                forall|i: int| 0 <= i < j ==> #[trigger] self@[i].0@ != name@,
            decreases n - j,
        {
            if self[j].0 == key {
                let e = &mut self[j];
                e.1 = index;
                proof {
                    let ov = old(self).entry_view();
                    assert(has_key(ov, name@)) by {
                        assert(ov[j as int].0 == name@);
                    }
                    if index_wf(ov) {
                        let j0 = key_slot(ov, name@);
                        assert(ov[j0].0 == name@);
                        assert(j0 == j as int);
                        assert(self.entry_view() =~~= ov.update(
                            j as int,
                            (name@, seq![index as int]),
                        ));
                        assert(key_seq(self.entry_view()) =~~= key_seq(ov));
                    } else {
                        assert(key_seq(self.entry_view()) =~~= key_seq(ov));
                    }
                }
                return ;
            }
            j += 1;
        }
        proof {
            if has_key(self.entry_view(), name@) {
                let j0 = key_slot(self.entry_view(), name@);
                assert(self.entry_view()[j0].0 == self@[j0].0@);
                assert(false);
            }
        }
    }
}

/// A strictly increasing sequence of positions.
pub open spec fn ascending(l: Seq<int>) -> bool {
    forall|a: int, b: int| #![trigger l[a], l[b]] 0 <= a < b < l.len() ==> l[a] < l[b]
}

/// Striking `p` from a strictly increasing list that holds it drops
/// its one occurrence: the length shrinks by one, membership loses
/// exactly `p`, and the list stays strictly increasing.
pub proof fn lemma_strike_ascending(l: Seq<int>, p: int)
    requires
        ascending(l),
        l.contains(p),
    ensures
        strike(l, p).len() == l.len() - 1,
        ascending(strike(l, p)),
        forall|q: int| #[trigger] strike(l, p).contains(q) <==> (l.contains(q) && q != p),
        !strike(l, p).contains(p),
{
    let i = l.index_of(p);
    assert(l[i] == p);
    let r = strike(l, p);
    assert(r == l.remove(i));
    assert forall|a: int, b: int| 0 <= a < b < r.len() implies r[a] < r[b] by {
        let a2 = if a < i {
            a
        } else {
            a + 1
        };
        let b2 = if b < i {
            b
        } else {
            b + 1
        };
        assert(r[a] == l[a2]);
        assert(r[b] == l[b2]);
    }
    assert forall|q: int| r.contains(q) implies (l.contains(q) && q != p) by {
        let k = choose|k: int| 0 <= k < r.len() && r[k] == q;
        let k2 = if k < i {
            k
        } else {
            k + 1
        };
        assert(l[k2] == q);
        if k2 != i {
            if k2 < i {
                assert(l[k2] < l[i]);
            } else {
                assert(l[i] < l[k2]);
            }
        }
    }
    assert forall|q: int| l.contains(q) && q != p implies r.contains(q) by {
        let k = choose|k: int| 0 <= k < l.len() && l[k] == q;
        assert(k != i);
        if k < i {
            assert(r[k] == l[k]);
        } else {
            assert(r[k - 1] == l[k]);
        }
    }
}

/// Shifting a strictly increasing list that avoids `p` keeps it
/// strictly increasing, and moves membership down across `p`.
pub proof fn lemma_shift_down_ascending(l: Seq<int>, p: int)
    requires
        ascending(l),
        !l.contains(p),
    ensures
        shift_down(l, p).len() == l.len(),
        ascending(shift_down(l, p)),
        forall|k: int|
            0 <= k < l.len() ==> #[trigger] shift_down(l, p)[k] == (if l[k] > p {
                l[k] - 1
            } else {
                l[k]
            }),
        forall|q: int|
            #[trigger] shift_down(l, p).contains(q) <==> (l.contains(q) && q < p) || (l.contains(
                q + 1,
            ) && q + 1 > p),
{
    let r = shift_down(l, p);
    assert(forall|k: int| 0 <= k < l.len() ==> !(#[trigger] l[k] == p)) by {
        assert forall|k: int| 0 <= k < l.len() implies l[k] != p by {
            if l[k] == p {
                assert(l.contains(p));
            }
        }
    }
    assert forall|a: int, b: int| 0 <= a < b < r.len() implies r[a] < r[b] by {
        assert(l[a] < l[b]);
        assert(l[a] != p && l[b] != p);
    }
    assert forall|q: int|
        #[trigger] r.contains(q) <==> (l.contains(q) && q < p) || (l.contains(q + 1) && q + 1
            > p) by {
        if r.contains(q) {
            let k = choose|k: int| 0 <= k < r.len() && r[k] == q;
            if l[k] > p {
                assert(l[k] == q + 1);
                assert(l.contains(q + 1));
            } else {
                assert(l[k] == q);
                assert(l.contains(q));
                assert(q < p);
            }
        }
        if l.contains(q) && q < p {
            let k = choose|k: int| 0 <= k < l.len() && l[k] == q;
            assert(r[k] == q);
        }
        if l.contains(q + 1) && q + 1 > p {
            let k = choose|k: int| 0 <= k < l.len() && l[k] == q + 1;
            assert(r[k] == q);
        }
    }
}

/// After finding the unique slot `js` for `name`, removing it and
/// decrementing every higher position yields exactly `delete_view`.
proof fn lemma_unique_delete_matches(
    ov: IndexView,
    oldv: Seq<(String, usize)>,
    newv: Seq<(String, usize)>,
    name: Seq<char>,
    p: int,
    js: int,
)
    requires
        ov == oldv.map(|j: int, e: (String, usize)| (e.0@, seq![e.1 as int])),
        index_wf(ov),
        has_key(ov, name),
        positions_of(ov, name).contains(p),
        0 <= js < oldv.len(),
        oldv[js].0@ == name,
        newv.len() == oldv.len() - 1,
        forall|t: int|
            #![trigger newv[t]]
            0 <= t < newv.len() ==> {
                let o = oldv.remove(js)[t];
                newv[t].0 == o.0 && newv[t].1 == (if o.1 > p {
                    (o.1 - 1) as usize
                } else {
                    o.1
                })
            },
    ensures
        newv.map(|j: int, e: (String, usize)| (e.0@, seq![e.1 as int])) == delete_view(
            ov,
            name,
            p,
        ),
{
    let j0 = key_slot(ov, name);
    assert(ov[js].0 == name);
    assert(j0 == js);
    assert(positions_of(ov, name) == ov[js].1);
    assert(ov[js].1 == seq![oldv[js].1 as int]);
    assert(ov[js].1[0] == oldv[js].1 as int);
    assert(oldv[js].1 as int == p);
    let struck = strike(ov[js].1, p);
    assert(ov[js].1.index_of(p) == 0);
    assert(struck =~= Seq::<int>::empty());
    let t = ov.update(js, (name, struck)).map(
        |j2: int, e: (Seq<char>, Seq<int>)| (e.0, shift_down(e.1, p)),
    );
    assert(delete_view(ov, name, p) == t.remove(js));
    assert(newv.map(|j: int, e: (String, usize)| (e.0@, seq![e.1 as int])) =~~= t.remove(js)) by {
        assert forall|k: int| 0 <= k < newv.len() implies newv.map(
            |j: int, e: (String, usize)| (e.0@, seq![e.1 as int]),
        )[k] =~~= t.remove(js)[k] by {
            let o = oldv.remove(js)[k];
            if k < js {
                assert(oldv.remove(js)[k] == oldv[k]);
                assert(t.remove(js)[k] == t[k]);
                assert(t[k] == (ov[k].0, shift_down(ov[k].1, p)));
                assert(ov[k] == (oldv[k].0@, seq![oldv[k].1 as int]));
                assert(shift_down(ov[k].1, p) =~= seq![
                    if oldv[k].1 > p {
                        oldv[k].1 - 1
                    } else {
                        oldv[k].1 as int
                    },
                ]);
            } else {
                assert(oldv.remove(js)[k] == oldv[k + 1]);
                assert(t.remove(js)[k] == t[k + 1]);
                assert(t[k + 1] == (ov[k + 1].0, shift_down(ov[k + 1].1, p)));
                assert(ov[k + 1] == (oldv[k + 1].0@, seq![oldv[k + 1].1 as int]));
                assert(shift_down(ov[k + 1].1, p) =~= seq![
                    if oldv[k + 1].1 > p {
                        oldv[k + 1].1 - 1
                    } else {
                        oldv[k + 1].1 as int
                    },
                ]);
            }
        }
    }
}

/// The multi strategy: a list of positions per name, kept as a vector
/// of `(name, positions)` pairs with pairwise distinct names.
impl Adjustable for Vec<(String, Vec<usize>)> {
    /// Each entry shows its whole position list, in stored order.
    open spec fn entry_view(&self) -> IndexView {
        self@.map_values(
            |e: (String, Vec<usize>)| (e.0@, e.1@.map_values(|q: usize| q as int)),
        )
    }

    fn empty_index() -> (r: Self)
        ensures
            r.entry_view() == Seq::<(Seq<char>, Seq<int>)>::empty(),
    {
        let r: Vec<(String, Vec<usize>)> = Vec::new();
        proof {
            assert(r.entry_view() =~= Seq::<(Seq<char>, Seq<int>)>::empty());
        }
        r
    }

    fn clear_entries(&mut self)
        ensures
            final(self).entry_view() == Seq::<(Seq<char>, Seq<int>)>::empty(),
    {
        self.clear();
        proof {
            assert(self.entry_view() =~= Seq::<(Seq<char>, Seq<int>)>::empty());
        }
    }

    fn contains_key(&self, name: &str) -> (r: bool)
        ensures
            r == has_key(self.entry_view(), name@),
    {
        let key: String = name.to_owned();
        let n = self.len();
        let mut j: usize = 0;
        while j < n
            invariant
                n == self@.len(),
                j <= n,
                key@ == name@,
                forall|i: int| 0 <= i < j ==> #[trigger] self@[i].0@ != name@,
            decreases n - j,
        {
            if self[j].0 == key {
                proof {
                    assert(self.entry_view()[j as int].0 == name@);
                }
                return true;
            }
            j += 1;
        }
        proof {
            if has_key(self.entry_view(), name@) {
                let j0 = key_slot(self.entry_view(), name@);
                assert(self.entry_view()[j0].0 == self@[j0].0@);
                assert(false);
            }
        }
        false
    }

    fn keys(&self) -> (r: Vec<String>)
        ensures
            r@.map_values(|s: String| s@) == key_seq(self.entry_view()),
    {
        let n = self.len();
        let mut r: Vec<String> = Vec::new();
        let mut j: usize = 0;
        while j < n
            invariant
                n == self@.len(),
                j <= n,
                r@.len() == j,
                forall|i: int| 0 <= i < j ==> #[trigger] r@[i]@ == self@[i].0@,
            decreases n - j,
        {
            r.push(self[j].0.clone());
            j += 1;
        }
        proof {
            assert(r@.map_values(|s: String| s@) =~= key_seq(self.entry_view()));
        }
        r
    }

    /// A name already present gets `index` appended to its list; a new
    /// name gets a fresh singleton entry at the end.
    fn add_entry(&mut self, name: &str, index: usize)
        ensures
            index_wf(old(self).entry_view()) && has_key(old(self).entry_view(), name@) ==> final(
                self
            ).entry_view() == old(self).entry_view().update(
                key_slot(old(self).entry_view(), name@),
                (
                    name@,
                    old(self).entry_view()[key_slot(old(self).entry_view(), name@)].1.push(
                        index as int,
                    ),
                ),
            ),
    {
        let key: String = name.to_owned();
        let n = self.len();
        let mut slot: Option<usize> = None;
        let mut j: usize = 0;
        while j < n
            invariant
                n == self@.len(),
                j <= n,
                key@ == name@,
                self@ == old(self)@,
                slot is None ==> forall|i: int| 0 <= i < j ==> #[trigger] self@[i].0@ != name@,
                slot is Some ==> {
                    let js = slot.unwrap() as int;
                    0 <= js < j && self@[js].0@ == name@
                },
            decreases n - j,
        {
            if slot.is_none() && self[j].0 == key {
                slot = Some(j);
            }
            j += 1;
        }
        let ghost ov = old(self).entry_view();
        match slot {
            Some(js) => {
                let e = &mut self[js];
                e.1.push(index);
                proof {
                    assert(has_key(ov, name@)) by {
                        assert(ov[js as int].0 == name@);
                    }
                    if index_wf(ov) {
                        let j0 = key_slot(ov, name@);
                        assert(0 <= j0 < ov.len());
                        assert(ov[j0].0 == name@);
                        assert(ov[js as int].0 == name@);
                        if j0 != js as int {
                            assert(ov[j0].0 != ov[js as int].0);
                            assert(false);
                        }
                        assert(j0 == js as int);
                        assert(self.entry_view() =~~= ov.update(
                            js as int,
                            (name@, ov[js as int].1.push(index as int)),
                        ));
                    }
                }
            },
            None => {
                let mut fresh: Vec<usize> = Vec::new();
                fresh.push(index);
                self.push((key, fresh));
                proof {
                    if has_key(ov, name@) {
                        let j0 = key_slot(ov, name@);
                        assert(ov[j0].0 == old(self)@[j0].0@);
                        assert(false);
                    }
                    assert(self.entry_view() =~~= ov.push((name@, seq![index as int])));
                }
            },
        }
    }

    /// Strike `index` out of `name`'s list, drop the entry if the list
    /// is now empty, and renumber every position above `index` across
    /// all entries.
    fn delete_entry(&mut self, name: &str, index: usize) {
        let key: String = name.to_owned();
        let n = self.len();
        let mut slot: Option<usize> = None;
        let mut j: usize = 0;
        while j < n
            invariant
                n == self@.len(),
                j <= n,
                key@ == name@,
                self@ == old(self)@,
                slot is None ==> forall|i: int| 0 <= i < j ==> #[trigger] self@[i].0@ != name@,
                slot is Some ==> {
                    let js = slot.unwrap() as int;
                    0 <= js < j && self@[js].0@ == name@ && (forall|i: int|
                        0 <= i < js ==> #[trigger] self@[i].0@ != name@)
                },
            decreases n - j,
        {
            if slot.is_none() && self[j].0 == key {
                slot = Some(j);
            }
            j += 1;
        }
        let ghost ov = old(self).entry_view();
        let ghost guard = index_wf(ov) && has_key(ov, name@) && positions_of(ov, name@).contains(
            index as int,
        );
        match slot {
            Some(js) => {
                let ghost oldlist = self@[js as int].1@.map_values(|q: usize| q as int);
                let mut hit: Option<usize> = None;
                {
                    let e = &mut self[js];
                    let ln = e.1.len();
                    let mut k: usize = 0;
                    while k < ln
                        invariant
                            ln == e.1@.len(),
                            k <= ln,
                            hit is None ==> forall|i: int|
                                0 <= i < k ==> #[trigger] e.1@[i] != index,
                            hit is Some ==> {
                                let kh = hit.unwrap() as int;
                                0 <= kh < k && e.1@[kh] == index && (forall|i: int|
                                    0 <= i < kh ==> #[trigger] e.1@[i] != index)
                            },
                            *e == old(self)@[js as int],
                        decreases ln - k,
                    {
                        if hit.is_none() && e.1[k] == index {
                            hit = Some(k);
                        }
                        k += 1;
                    }
                    if let Some(kh) = hit {
                        e.1.remove(kh);
                    }
                }
                let ghost struck_vec = self@;
                proof {
                    if guard {
                        let j0 = key_slot(ov, name@);
                        assert(ov[js as int].0 == name@);
                        assert(j0 == js as int);
                        assert(positions_of(ov, name@) == oldlist);
                        if hit is None {
                            let w = choose|i: int|
                                0 <= i < oldlist.len() && oldlist[i] == index as int;
                            assert(old(self)@[js as int].1@[w] == index);
                            assert(false);
                        }
                        let kh = hit.unwrap() as int;
                        assert(oldlist.index_of(index as int) == kh) by {
                            assert(oldlist[kh] == index as int);
                            assert(forall|i: int|
                                0 <= i < kh ==> #[trigger] oldlist[i] != index as int);
                            oldlist.index_of_first_ensures(index as int);
                            let f = oldlist.index_of_first(index as int);
                            assert(oldlist.contains(index as int));
                            assert(f is Some);
                            let fi = f.unwrap();
                            assert(oldlist[fi] == index as int);
                            assert(fi == kh);
                            assert(oldlist.index_of(index as int) == fi);
                        }
                        assert(struck_vec[js as int].1@.map_values(|q: usize| q as int) =~=
                            strike(oldlist, index as int));
                        assert(struck_vec =~= old(self)@.update(
                            js as int,
                            (old(self)@[js as int].0, struck_vec[js as int].1),
                        ));
                    }
                }
                let empty_now = self[js].1.len() == 0;
                if empty_now {
                    self.remove(js);
                }
                let ghost mid = self@;
                let m = self.len();
                let mut i: usize = 0;
                while i < m
                    invariant
                        m == self@.len(),
                        mid.len() == m,
                        i <= m,
                        forall|t: int| i <= t < m ==> #[trigger] self@[t] == mid[t],
                        forall|t: int|
                            #![trigger self@[t]]
                            0 <= t < i ==> self@[t].0 == mid[t].0 && self@[t].1@
                                =~= mid[t].1@.map_values(
                                |q: usize| if q > index {
                                    (q - 1) as usize
                                } else {
                                    q
                                },
                            ),
                    decreases m - i,
                {
                    let e = &mut self[i];
                    let ghost before = e.1@;
                    let lm = e.1.len();
                    let mut k2: usize = 0;
                    while k2 < lm
                        invariant
                            lm == e.1@.len(),
                            before.len() == lm,
                            k2 <= lm,
                            e.0 == mid[i as int].0,
                            before == mid[i as int].1@,
                            forall|t: int| k2 <= t < lm ==> #[trigger] e.1@[t] == before[t],
                            forall|t: int|
                                #![trigger e.1@[t]]
                                0 <= t < k2 ==> e.1@[t] == (if before[t] > index {
                                    (before[t] - 1) as usize
                                } else {
                                    before[t]
                                }),
                        decreases lm - k2,
                    {
                        if e.1[k2] > index {
                            let q = e.1[k2];
                            e.1[k2] = q - 1;
                        }
                        k2 += 1;
                    }
                    i += 1;
                }
                proof {
                    if guard {
                        lemma_multi_delete_matches(
                            ov,
                            old(self)@,
                            struck_vec,
                            mid,
                            self@,
                            name@,
                            index as int,
                            js as int,
                        );
                    }
                }
            },
            None => {
                proof {
                    if guard {
                        let j0 = key_slot(ov, name@);
                        assert(ov[j0].0 == old(self)@[j0].0@);
                        assert(false);
                    }
                }
            },
        }
    }

    /// The multi strategy never overwrites in place, so refreshing a
    /// binding changes nothing.
    fn replace_entry(&mut self, name: &str, index: usize)
        ensures
            final(self)@ == old(self)@,
    {
    }
}

/// After striking `p` from the list at the unique slot `js` for
/// `name`, pruning the entry if that emptied it, and decrementing every
/// position above `p`, the index content is exactly `delete_view`.
proof fn lemma_multi_delete_matches(
    ov: IndexView,
    oldv: Seq<(String, Vec<usize>)>,
    struckv: Seq<(String, Vec<usize>)>,
    mid: Seq<(String, Vec<usize>)>,
    newv: Seq<(String, Vec<usize>)>,
    name: Seq<char>,
    p: int,
    js: int,
)
    requires
        ov == oldv.map_values(
            |e: (String, Vec<usize>)| (e.0@, e.1@.map_values(|q: usize| q as int)),
        ),
        index_wf(ov),
        has_key(ov, name),
        positions_of(ov, name).contains(p),
        0 <= js < oldv.len(),
        oldv[js].0@ == name,
        struckv.len() == oldv.len(),
        forall|t: int| 0 <= t < oldv.len() && t != js ==> #[trigger] struckv[t] == oldv[t],
        struckv[js].0 == oldv[js].0,
        struckv[js].1@.map_values(|q: usize| q as int) == strike(ov[js].1, p),
        mid == (if strike(ov[js].1, p).len() == 0 {
            struckv.remove(js)
        } else {
            struckv
        }),
        newv.len() == mid.len(),
        forall|t: int|
            #![trigger newv[t]]
            0 <= t < mid.len() ==> newv[t].0 == mid[t].0 && newv[t].1@ == mid[t].1@.map_values(
                |q: usize| if q > p {
                    (q - 1) as usize
                } else {
                    q
                },
            ),
    ensures
        newv.map_values(
            |e: (String, Vec<usize>)| (e.0@, e.1@.map_values(|q: usize| q as int)),
        ) == delete_view(ov, name, p),
{
    let vf = |e: (String, Vec<usize>)| (e.0@, e.1@.map_values(|q: usize| q as int));
    let j0 = key_slot(ov, name);
    assert(ov[js].0 == name);
    assert(j0 == js);
    let struck = strike(ov[js].1, p);
    let t = ov.update(js, (name, struck)).map_values(
        |e: (Seq<char>, Seq<int>)| (e.0, shift_down(e.1, p)),
    );
    assert(0 <= p) by {
        assert(ov[js].1.contains(p));
        let w = choose|i: int| 0 <= i < ov[js].1.len() && ov[js].1[i] == p;
        assert(ov[js].1[w] == oldv[js].1@[w] as int);
    }
    assert(struckv.map_values(vf) =~~= ov.update(js, (name, struck))) by {
        assert forall|k: int| 0 <= k < struckv.len() implies struckv.map_values(vf)[k] =~~= ov.update(
            js,
            (name, struck),
        )[k] by {
            if k != js {
                assert(struckv[k] == oldv[k]);
                assert(ov[k] == vf(oldv[k]));
            }
        }
    }
    assert(delete_view(ov, name, p) == (if struck.len() == 0 {
        t.remove(js)
    } else {
        t
    }));
    if struck.len() == 0 {
        assert(struckv[js].1@.len() == 0);
        assert(mid == struckv.remove(js));
        assert(newv.map_values(vf) =~~= t.remove(js)) by {
            assert forall|k: int| 0 <= k < newv.len() implies newv.map_values(vf)[k] =~~= t.remove(
                js,
            )[k] by {
                let sk = if k < js {
                    k
                } else {
                    k + 1
                };
                assert(mid[k] == struckv[sk]);
                assert(t.remove(js)[k] == t[sk]);
                assert(t[sk] == (struckv.map_values(vf)[sk].0, shift_down(
                    struckv.map_values(vf)[sk].1,
                    p,
                )));
                lemma_shift_pointwise(struckv[sk].1@, newv[k].1@, p);
            }
        }
    } else {
        assert(mid == struckv);
        assert(newv.map_values(vf) =~~= t) by {
            assert forall|k: int| 0 <= k < newv.len() implies newv.map_values(vf)[k] =~~= t[k] by {
                assert(mid[k] == struckv[k]);
                assert(t[k] == (struckv.map_values(vf)[k].0, shift_down(
                    struckv.map_values(vf)[k].1,
                    p,
                )));
                lemma_shift_pointwise(struckv[k].1@, newv[k].1@, p);
            }
        }
    }
}

/// Decrementing the entries of a position vector above `p` matches
/// `shift_down` on its integer content.
proof fn lemma_shift_pointwise(before: Seq<usize>, after: Seq<usize>, p: int)
    requires
        0 <= p,
        after == before.map_values(
            |q: usize| if q > p {
                (q - 1) as usize
            } else {
                q
            },
        ),
    ensures
        after.map_values(|q: usize| q as int) == shift_down(
            before.map_values(|q: usize| q as int),
            p,
        ),
{
    assert(after.map_values(|q: usize| q as int) =~= shift_down(
        before.map_values(|q: usize| q as int),
        p,
    ));
}

} // verus!
