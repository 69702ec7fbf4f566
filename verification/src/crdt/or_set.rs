//! Observed-remove set: every add carries a unique tag, and a remove takes away
//! only the tags its replica has observed, so a concurrent add survives.
use vstd::prelude::*;
use crate::collections::{lemma_map_join_laws, map_join, SortedMap, SortedSet};
use crate::text::{Duplicate, OrderedKey, SameValue};

verus! {

#[derive(Debug, Clone, PartialEq, Eq)]
pub struct OrSet<T> {
    pub adds: SortedMap<T, SortedSet<String>>,
    pub removes: SortedMap<T, SortedSet<String>>,
}

/// The model of a set: the tags added for each element and the tags removed from it.
#[verifier::ext_equal]
#[verifier::reject_recursive_types(E)]
pub struct OrSetModel<E> {
    pub adds: Map<E, Set<Seq<char>>>,
    pub removes: Map<E, Set<Seq<char>>>,
}

/// The tags a map holds for `e` (none where it has no entry).
pub open spec fn tags_in<E>(m: Map<E, Set<Seq<char>>>, e: E) -> Set<Seq<char>> {
    if m.contains_key(e) {
        m[e]
    } else {
        Set::empty()
    }
}

/// The tags of `e` that were added and not removed.
pub open spec fn visible_tags<E>(s: OrSetModel<E>, e: E) -> Set<Seq<char>> {
    tags_in(s.adds, e).difference(tags_in(s.removes, e))
}

/// `e` is in the set: some tag of it is visible.
pub open spec fn orset_contains<E>(s: OrSetModel<E>, e: E) -> bool {
    exists|t: Seq<char>| #[trigger] visible_tags(s, e).contains(t)
}

/// The elements in the set.
pub open spec fn orset_elements<E>(s: OrSetModel<E>) -> Set<E> {
    Set::new(|e: E| s.adds.contains_key(e) && orset_contains(s, e))
}

pub open spec fn orset_empty<E>() -> OrSetModel<E> {
    OrSetModel { adds: Map::empty(), removes: Map::empty() }
}

/// Adding `e` under `tag`.
pub open spec fn orset_add<E>(s: OrSetModel<E>, e: E, tag: Seq<char>) -> OrSetModel<E> {
    OrSetModel { adds: s.adds.insert(e, tags_in(s.adds, e).insert(tag)), removes: s.removes }
}

/// Removing `e`: every tag of `e` added so far becomes removed.
pub open spec fn orset_remove_observed<E>(s: OrSetModel<E>, e: E) -> OrSetModel<E> {
    if s.adds.contains_key(e) {
        OrSetModel { adds: s.adds, removes: s.removes.insert(e, tags_in(s.removes, e).union(s.adds[e])) }
    } else {
        s
    }
}

/// The merge of two sets: the union of added tags and the union of removed tags.
pub open spec fn orset_merge<T: OrderedKey>(
    a: OrSetModel<<T as DeepView>::V>,
    b: OrSetModel<<T as DeepView>::V>,
) -> OrSetModel<<T as DeepView>::V> {
    OrSetModel {
        adds: map_join::<T, SortedSet<String>>(a.adds, b.adds),
        removes: map_join::<T, SortedSet<String>>(a.removes, b.removes),
    }
}

impl<T: OrderedKey> DeepView for OrSet<T> {
    type V = OrSetModel<<T as DeepView>::V>;

    open spec fn deep_view(&self) -> Self::V {
        OrSetModel { adds: self.adds@, removes: self.removes@ }
    }
}

impl<T: OrderedKey> View for OrSet<T> {
    type V = OrSetModel<<T as DeepView>::V>;

    open spec fn view(&self) -> Self::V {
        self.deep_view()
    }
}

impl<T: OrderedKey> Default for OrSet<T> {
    fn default() -> (r: Self)
        ensures
            r.wf(),
            r@ == orset_empty::<<T as DeepView>::V>(),
    {
        let r = OrSet { adds: SortedMap::new(), removes: SortedMap::new() };
        assert(r@ =~= orset_empty::<<T as DeepView>::V>());
        r
    }
}

impl<T: OrderedKey> OrSet<T> {
    pub open spec fn wf(&self) -> bool {
        self.adds.wf() && self.removes.wf()
    }

    pub fn add(&mut self, element: T, tag: &str)
        requires
            old(self).wf(),
        ensures
            final(self).wf(),
            final(self)@ == orset_add(old(self)@, element.deep_view(), tag@),
    {
        let mut tags = match self.adds.get(&element) {
            Some(existing) => existing.duplicate(),
            None => SortedSet::new(),
        };
        tags.insert(tag.to_owned());
        self.adds.insert(element, tags);
        assert(self@ =~= orset_add(old(self)@, element.deep_view(), tag@));
    }

    /// Removes the tags of `element` that this replica has observed. The tag of the
    /// remove itself is not recorded.
    pub fn remove_observed(&mut self, element: &T, remove_tag: &str)
        requires
            old(self).wf(),
        ensures
            final(self).wf(),
            final(self)@ == orset_remove_observed(old(self)@, element.deep_view()),
    {
        let _ = remove_tag;
        match self.adds.get(element) {
            None => {},
            Some(observed) => {
                let mut removed = match self.removes.get(element) {
                    Some(existing) => existing.duplicate(),
                    None => SortedSet::new(),
                };
                removed.extend_from(observed);
                proof {
                    element.lemma_always_valid();
                }
                self.removes.insert(element.duplicate(), removed);
                assert(self@ =~= orset_remove_observed(old(self)@, element.deep_view()));
            },
        }
    }

    pub fn contains(&self, element: &T) -> (r: bool)
        requires
            self.wf(),
        ensures
            r == orset_contains(self@, element.deep_view()),
    {
        let ghost e = element.deep_view();
        match self.adds.get(element) {
            None => {
                assert(visible_tags(self@, e) =~= Set::empty());
                false
            },
            Some(tags) => {
                let removed = self.removes.get(element);
                proof {
                    tags.lemma_wf_view();
                }
                let n = tags.len();
                for i in 0..n
                    invariant
                        n == tags.elems().len(),
                        tags.wf(),
                        tags@ == tags.elems().to_set(),
                        e == element.deep_view(),
                        tags@ == tags_in(self@.adds, e),
                        removed is Some == self@.removes.contains_key(e),
                        removed is Some ==> removed->0@ == self@.removes[e] && removed->0.wf(),
                        forall|j: int| 0 <= j < i ==> tags_in(self@.removes, e).contains(#[trigger] tags.elems()[j]),
                {
                    let tag = tags.element_at(i);
                    let is_removed = match removed {
                        Some(r) => r.contains(tag),
                        None => false,
                    };
                    assert(tags@.contains(tags.elems()[i as int]));
                    if !is_removed {
                        assert(visible_tags(self@, e).contains(tags.elems()[i as int]));
                        assert(orset_contains(self@, e));
                        return true;
                    }
                }
                assert forall|t: Seq<char>| !#[trigger] visible_tags(self@, e).contains(t) by {
                    if tags@.contains(t) {
                        let j = choose|j: int| 0 <= j < tags.elems().len() && tags.elems()[j] == t;
                    }
                }
                false
            },
        }
    }

    /// The elements in the set, in increasing order.
    pub fn elements(&self) -> (r: SortedSet<T>)
        requires
            self.wf(),
        ensures
            r.wf(),
            r@ == orset_elements(self@),
    {
        let mut out = SortedSet::new();
        proof {
            self.adds.lemma_wf_view();
        }
        let n = self.adds.len();
        for i in 0..n
            invariant
                n == self.adds.keys().len(),
                self.wf(),
                self.adds@.dom() == self.adds.keys().to_set(),
                out.wf(),
                out@ == orset_elements(self@).intersect(self.adds.keys().take(i as int).to_set()),
        {
            let element = self.adds.key_at(i);
            let present = self.contains(element);
            if present {
                proof {
                    element.lemma_always_valid();
                }
                out.insert(element.duplicate());
            }
            proof {
                assert(self.adds.keys().take(i + 1) =~= self.adds.keys().take(i as int).push(
                    self.adds.keys()[i as int],
                ));
                crate::collections::lemma_push_to_set(self.adds.keys().take(i as int), self.adds.keys()[i as int]);
                assert(self.adds@.contains_key(self.adds.keys()[i as int]));
                assert(out@ =~= orset_elements(self@).intersect(self.adds.keys().take(i + 1).to_set()));
            }
        }
        assert(self.adds.keys().take(n as int) =~= self.adds.keys());
        assert(out@ =~= orset_elements(self@));
        out
    }

    /// The visible tags of `element`, in increasing order.
    pub fn tags_for(&self, element: &T) -> (r: SortedSet<String>)
        requires
            self.wf(),
        ensures
            r.wf(),
            r@ == visible_tags(self@, element.deep_view()),
    {
        let ghost e = element.deep_view();
        let mut out = SortedSet::new();
        match self.adds.get(element) {
            None => {
                assert(out@ =~= visible_tags(self@, e));
            },
            Some(tags) => {
                let removed = self.removes.get(element);
                proof {
                    tags.lemma_wf_view();
                }
                let n = tags.len();
                for i in 0..n
                    invariant
                        n == tags.elems().len(),
                        tags.wf(),
                        tags@ == tags.elems().to_set(),
                        e == element.deep_view(),
                        tags@ == tags_in(self@.adds, e),
                        removed is Some == self@.removes.contains_key(e),
                        removed is Some ==> removed->0@ == self@.removes[e] && removed->0.wf(),
                        out.wf(),
                        out@ == visible_tags(self@, e).intersect(tags.elems().take(i as int).to_set()),
                {
                    let tag = tags.element_at(i);
                    let is_removed = match removed {
                        Some(r) => r.contains(tag),
                        None => false,
                    };
                    assert(tags@.contains(tags.elems()[i as int]));
                    if !is_removed {
                        out.insert(tag.clone());
                        assert(visible_tags(self@, e).contains(tags.elems()[i as int]));
                    } else {
                        assert(!visible_tags(self@, e).contains(tags.elems()[i as int]));
                    }
                    proof {
                        assert(tags.elems().take(i + 1) =~= tags.elems().take(i as int).push(
                            tags.elems()[i as int],
                        ));
                        crate::collections::lemma_push_to_set(tags.elems().take(i as int), tags.elems()[i as int]);
                        assert(out@ =~= visible_tags(self@, e).intersect(tags.elems().take(i + 1).to_set()));
                    }
                }
                assert(tags.elems().take(n as int) =~= tags.elems());
                assert(out@ =~= visible_tags(self@, e));
            },
        }
        out
    }

    pub fn merge(&self, other: &Self) -> (r: Self)
        requires
            self.wf(),
            other.wf(),
        ensures
            r.wf(),
            r@ == orset_merge::<T>(self@, other@),
    {
        let mut merged = self.duplicate();
        merged.adds.join_from(&other.adds);
        merged.removes.join_from(&other.removes);
        merged
    }

    pub fn merge_mut(&mut self, other: &Self)
        requires
            old(self).wf(),
            other.wf(),
        ensures
            final(self).wf(),
            final(self)@ == orset_merge::<T>(old(self)@, other@),
    {
        *self = self.merge(other);
    }
}

impl<T: OrderedKey> SameValue for OrSet<T> {
    fn same_value(&self, other: &Self) -> (r: bool) {
        self.adds.same_value(&other.adds) && self.removes.same_value(&other.removes)
    }
}

impl<T: OrderedKey> Duplicate for OrSet<T> {
    open spec fn valid(&self) -> bool {
        self.wf()
    }

    fn duplicate(&self) -> (r: Self) {
        OrSet { adds: self.adds.duplicate(), removes: self.removes.duplicate() }
    }
}

/// Set merge is commutative, associative and idempotent.
pub proof fn lemma_orset_merge_laws<T: OrderedKey>(
    a: OrSetModel<<T as DeepView>::V>,
    b: OrSetModel<<T as DeepView>::V>,
    c: OrSetModel<<T as DeepView>::V>,
)
    ensures
        orset_merge::<T>(a, b) == orset_merge::<T>(b, a),
        orset_merge::<T>(orset_merge::<T>(a, b), c) == orset_merge::<T>(a, orset_merge::<T>(b, c)),
        orset_merge::<T>(a, a) == a,
{
    lemma_map_join_laws::<T, SortedSet<String>>(a.adds, b.adds, c.adds);
    lemma_map_join_laws::<T, SortedSet<String>>(a.removes, b.removes, c.removes);
    assert(orset_merge::<T>(a, a) =~= a);
}

/// Add wins over a remove that did not see it: a remove takes away only the tags it
/// has observed, so an element added under a tag that the removing replica had not
/// seen stays in the merge.
pub proof fn lemma_unobserved_add_survives<T: OrderedKey>(
    a: OrSetModel<<T as DeepView>::V>,
    b: OrSetModel<<T as DeepView>::V>,
    e: <T as DeepView>::V,
    tag: Seq<char>,
)
    requires
        !tags_in(a.removes, e).contains(tag),
        !tags_in(b.adds, e).contains(tag),
        !tags_in(b.removes, e).contains(tag),
    ensures
        orset_contains(orset_merge::<T>(orset_add(a, e, tag), orset_remove_observed(b, e)), e),
{
    let m = orset_merge::<T>(orset_add(a, e, tag), orset_remove_observed(b, e));
    assert(tags_in(m.adds, e).contains(tag));
    assert(!tags_in(m.removes, e).contains(tag));
    assert(visible_tags(m, e).contains(tag));
}

/// A remove takes the element out of the set on the replica that makes it, however
/// often the element was added and removed before, and leaves every other element
/// as it was.
pub proof fn lemma_remove_observed_removes<E>(s: OrSetModel<E>, e: E)
    ensures
        !orset_contains(orset_remove_observed(s, e), e),
        visible_tags(orset_remove_observed(s, e), e) == Set::<Seq<char>>::empty(),
        forall|x: E| x != e ==> #[trigger] orset_contains(orset_remove_observed(s, e), x) == orset_contains(s, x),
{
    let r = orset_remove_observed(s, e);
    assert(visible_tags(r, e) =~= Set::<Seq<char>>::empty());
    assert forall|x: E| x != e implies #[trigger] orset_contains(r, x) == orset_contains(s, x) by {
        assert(visible_tags(r, x) =~= visible_tags(s, x));
    }
}

/// An add puts the element in the set, and leaves every other element as it was.
pub proof fn lemma_add_adds<E>(s: OrSetModel<E>, e: E, tag: Seq<char>)
    requires
        !tags_in(s.removes, e).contains(tag),
    ensures
        orset_contains(orset_add(s, e, tag), e),
        forall|x: E| x != e ==> #[trigger] orset_contains(orset_add(s, e, tag), x) == orset_contains(s, x),
{
    let r = orset_add(s, e, tag);
    assert(visible_tags(r, e).contains(tag));
    assert forall|x: E| x != e implies #[trigger] orset_contains(r, x) == orset_contains(s, x) by {
        assert(visible_tags(r, x) =~= visible_tags(s, x));
    }
}

/// A merge keeps every tag either side has added and every tag either side has
/// removed, for every element.
pub proof fn lemma_orset_merge_keeps_tags<T: OrderedKey>(
    a: OrSetModel<<T as DeepView>::V>,
    b: OrSetModel<<T as DeepView>::V>,
    e: <T as DeepView>::V,
)
    ensures
        tags_in(orset_merge::<T>(a, b).adds, e) == tags_in(a.adds, e).union(tags_in(b.adds, e)),
        tags_in(orset_merge::<T>(a, b).removes, e) == tags_in(a.removes, e).union(tags_in(b.removes, e)),
{
    assert(tags_in(orset_merge::<T>(a, b).adds, e) =~= tags_in(a.adds, e).union(tags_in(b.adds, e)));
    assert(tags_in(orset_merge::<T>(a, b).removes, e) =~= tags_in(a.removes, e).union(tags_in(b.removes, e)));
}

} // verus!
