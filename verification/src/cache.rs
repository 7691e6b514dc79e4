//! Verdicts that were given before, by template.
use std::sync::Arc;
use vstd::hash_map::StringHashMap;
use vstd::prelude::*;

use crate::judge::{Verdict, VerdictView};
use crate::text::{owned_view, same, share};

verus! {

/// The verdicts that a cache may hold.
pub const MAX_ENTRIES: usize = 250_000;

/// The views of a list of templates with their verdicts.
pub open spec fn entry_views(list: Seq<(Arc<str>, Arc<Verdict>)>) -> Seq<
    (Seq<char>, VerdictView),
> {
    list.map_values(|entry: (Arc<str>, Arc<Verdict>)| (entry.0@, entry.1@))
}

/// The views of a list of stored templates with their verdicts.
pub open spec fn stored_views(list: Seq<(String, Verdict)>) -> Seq<(Seq<char>, VerdictView)> {
    list.map_values(|entry: (String, Verdict)| (entry.0@, entry.1@))
}

/// The verdict of each template in `list`; of two the last counts.
pub open spec fn table(list: Seq<(Seq<char>, VerdictView)>) -> Map<Seq<char>, VerdictView>
    decreases list.len(),
{
    if list.len() == 0 {
        Map::empty()
    } else {
        table(list.drop_last()).insert(list.last().0, list.last().1)
    }
}

/// The valid verdict of each template in `list`; of two the last counts.
pub open spec fn valid_table(list: Seq<(Seq<char>, VerdictView)>) -> Map<Seq<char>, VerdictView>
    decreases list.len(),
{
    if list.len() == 0 {
        Map::empty()
    } else if list.last().1.valid() {
        valid_table(list.drop_last()).insert(list.last().0, list.last().1)
    } else {
        valid_table(list.drop_last())
    }
}

/// The verdicts that stay when one of the model `model` comes in: none if they
/// are of another model, and none if there is no room.
pub open spec fn kept(
    verdicts: Map<Seq<char>, VerdictView>,
    current: Option<Seq<char>>,
    model: Seq<char>,
) -> Map<Seq<char>, VerdictView> {
    if (current is Some && current != Some(model)) || verdicts.len() >= MAX_ENTRIES {
        Map::empty()
    } else {
        verdicts
    }
}

/// The verdicts of one judge and one model.
pub struct Cache {
    fingerprint: String,
    model: Option<String>,
    entries: Vec<(Arc<str>, Arc<Verdict>)>,
    places: StringHashMap<usize>,
    dirty: bool,
}

impl Cache {
    /// Whether each template has one entry, found by its place.
    pub closed spec fn well_formed(self) -> bool {
        &&& forall|i: int|
            0 <= i < self.entries@.len() ==> self.places@.contains_key((#[trigger] self.entries@[i]).0@)
                && self.places@[self.entries@[i].0@] == i
        &&& forall|template: Seq<char>| #[trigger]
            self.places@.contains_key(template) ==> self.places@[template] < self.entries@.len()
                && self.entries@[self.places@[template] as int].0@ == template
    }

    /// The verdict of each template.
    pub closed spec fn verdicts(self) -> Map<Seq<char>, VerdictView> {
        Map::new(
            |template: Seq<char>| self.places@.contains_key(template),
            |template: Seq<char>| self.entries@[self.places@[template] as int].1@,
        )
    }

    /// The judge that the verdicts are of.
    pub closed spec fn judge_name(self) -> Seq<char> {
        self.fingerprint@
    }

    /// The model that the verdicts are of.
    pub closed spec fn model_name(self) -> Option<Seq<char>> {
        owned_view(self.model)
    }

    /// Whether verdicts came in since the cache was last saved.
    pub closed spec fn unsaved(self) -> bool {
        self.dirty
    }

    /// An empty cache for the judge `fingerprint`.
    pub fn memory(fingerprint: String) -> (cache: Cache)
        ensures
            cache.well_formed(),
            cache.verdicts() == Map::<Seq<char>, VerdictView>::empty(),
            cache.judge_name() == fingerprint@,
            cache.model_name() is None,
            !cache.unsaved(),
    {
        let cache = Cache {
            fingerprint,
            model: None,
            entries: Vec::new(),
            places: StringHashMap::new(),
            dirty: false,
        };
        assert(cache.verdicts() == Map::<Seq<char>, VerdictView>::empty());
        cache
    }

    /// Whether verdicts of the judge `fingerprint` belong in this cache.
    pub fn accepts(&self, fingerprint: &str) -> (accepted: bool)
        ensures
            accepted == (fingerprint@ == self.judge_name()),
    {
        same(fingerprint, self.fingerprint.as_str())
    }

    /// Puts in the verdict of a template, in place of any other.
    fn put(&mut self, template: Arc<str>, verdict: Arc<Verdict>)
        requires
            old(self).well_formed(),
        ensures
            final(self).well_formed(),
            final(self).verdicts() == old(self).verdicts().insert(template@, verdict@),
            final(self).judge_name() == old(self).judge_name(),
            final(self).model_name() == old(self).model_name(),
            final(self).unsaved() == old(self).unsaved(),
    {
        let name: &str = &template;
        let found = match self.places.get(name) {
            Some(place) => Some(*place),
            None => None,
        };
        match found {
            Some(place) => {
                self.entries.set(place, (template, verdict));
            },
            None => {
                self.places.insert(name.to_string(), self.entries.len());
                self.entries.push((template, verdict));
            },
        }
        assert(self.verdicts() == old(self).verdicts().insert(template@, verdict@));
    }

    /// Drops all verdicts.
    fn clear(&mut self)
        ensures
            final(self).well_formed(),
            final(self).verdicts() == Map::<Seq<char>, VerdictView>::empty(),
            final(self).judge_name() == old(self).judge_name(),
            final(self).model_name() == old(self).model_name(),
            final(self).unsaved() == old(self).unsaved(),
    {
        self.entries.clear();
        self.places.clear();
        assert(self.verdicts() == Map::<Seq<char>, VerdictView>::empty());
    }

    /// Takes over the stored verdicts that are valid, and the model that they
    /// are of.
    pub fn load(&mut self, model: Option<String>, stored: &Vec<(String, Verdict)>)
        ensures
            final(self).well_formed(),
            final(self).verdicts() == valid_table(stored_views(stored@)),
            final(self).model_name() == owned_view(model),
            final(self).judge_name() == old(self).judge_name(),
            final(self).unsaved() == old(self).unsaved(),
    {
        self.clear();
        self.model = model;
        let ghost all = stored_views(stored@);
        let mut i: usize = 0;
        while i < stored.len()
            invariant
                i <= stored@.len(),
                all == stored_views(stored@),
                self.well_formed(),
                self.verdicts() == valid_table(all.take(i as int)),
                self.model_name() == owned_view(model),
                self.judge_name() == old(self).judge_name(),
                self.unsaved() == old(self).unsaved(),
            decreases stored@.len() - i,
        {
            proof {
                assert(all.take(i + 1).drop_last() == all.take(i as int));
                assert(all.take(i + 1).last() == (stored@[i as int].0@, stored@[i as int].1@));
            }
            let entry = &stored[i];
            if entry.1.is_valid() {
                self.put(share(entry.0.as_str()), Arc::new(entry.1.copy()));
            }
            i += 1;
        }
        assert(all.take(stored@.len() as int) == all);
    }

    /// The verdict of `template`, if there is one.
    pub fn get(&self, template: &str) -> (verdict: Option<&Arc<Verdict>>)
        requires
            self.well_formed(),
        ensures
            verdict is Some <==> self.verdicts().contains_key(template@),
            verdict matches Some(v) ==> v@ == self.verdicts()[template@],
    {
        match self.places.get(template) {
            Some(place) => Some(&self.entries[*place].1),
            None => None,
        }
    }

    /// Puts in the verdict that the model `model` gave of `template`. Verdicts
    /// of another model are dropped, and so are all when there is no room.
    pub fn insert(&mut self, template: Arc<str>, verdict: Verdict, model: &str) -> (stored: Arc<
        Verdict,
    >)
        requires
            old(self).well_formed(),
        ensures
            final(self).well_formed(),
            final(self).verdicts() == kept(
                old(self).verdicts(),
                old(self).model_name(),
                model@,
            ).insert(template@, verdict@),
            final(self).model_name() == Some(model@),
            final(self).judge_name() == old(self).judge_name(),
            final(self).unsaved(),
            stored@ == verdict@,
    {
        let known = match &self.model {
            Some(current) => same(current.as_str(), model),
            None => false,
        };
        assert(self.verdicts().dom() == self.places@.dom());
        if !known {
            if self.model.is_some() {
                self.clear();
            }
            self.model = Some(model.to_string());
        }
        let ghost before = self.verdicts();
        assert(self.verdicts().dom() == self.places@.dom());
        if self.places.len() >= MAX_ENTRIES {
            self.clear();
        }
        let stored = Arc::new(verdict);
        self.put(template, stored.clone());
        self.dirty = true;
        assert(self.verdicts() == kept(
            old(self).verdicts(),
            old(self).model_name(),
            model@,
        ).insert(template@, verdict@));
        stored
    }

    /// The model that the verdicts are of.
    pub fn model(&self) -> (model: Option<&str>)
        ensures
            model is Some <==> self.model_name() is Some,
            model matches Some(m) ==> self.model_name() == Some(m@),
    {
        match &self.model {
            Some(model) => Some(model.as_str()),
            None => None,
        }
    }

    /// The judge that the verdicts are of.
    pub fn fingerprint(&self) -> (fingerprint: &str)
        ensures
            fingerprint@ == self.judge_name(),
    {
        self.fingerprint.as_str()
    }

    /// The number of verdicts.
    pub fn len(&self) -> (count: usize)
        ensures
            count == self.verdicts().len(),
    {
        assert(self.verdicts().dom() == self.places@.dom());
        self.places.len()
    }

    /// Whether there is no verdict.
    pub fn is_empty(&self) -> (empty: bool)
        ensures
            empty == (self.verdicts() == Map::<Seq<char>, VerdictView>::empty()),
    {
        assert(self.verdicts().dom() == self.places@.dom());
        let empty = self.places.is_empty();
        proof {
            if empty {
                assert(self.verdicts() == Map::<Seq<char>, VerdictView>::empty());
            }
        }
        empty
    }

    /// The templates with their verdicts, each once.
    pub fn contents(&self) -> (list: Vec<(Arc<str>, Arc<Verdict>)>)
        requires
            self.well_formed(),
        ensures
            table(entry_views(list@)) == self.verdicts(),
            forall|i: int, j: int|
                0 <= i < j < list@.len() ==> (#[trigger] list@[i]).0@ != (#[trigger] list@[j]).0@,
    {
        let mut list: Vec<(Arc<str>, Arc<Verdict>)> = Vec::new();
        let ghost all = entry_views(self.entries@);
        let mut i: usize = 0;
        while i < self.entries.len()
            invariant
                i <= self.entries@.len(),
                list@ == self.entries@.take(i as int),
                self.well_formed(),
            decreases self.entries@.len() - i,
        {
            let entry = &self.entries[i];
            list.push((entry.0.clone(), entry.1.clone()));
            i += 1;
        }
        proof {
            assert(list@ == self.entries@);
            lemma_table_of_distinct(entry_views(list@));
            assert(table(entry_views(list@)) == self.verdicts()) by {
                let t = table(entry_views(list@));
                assert forall|k: Seq<char>| #[trigger] t.contains_key(k) <==> self.verdicts().contains_key(
                    k,
                ) by {
                    if self.verdicts().contains_key(k) {
                        let place = self.places@[k] as int;
                        assert(entry_views(list@)[place].0 == k);
                    }
                }
                assert forall|k: Seq<char>| #[trigger] t.contains_key(k) implies t[k]
                    == self.verdicts()[k] by {
                    let place = self.places@[k] as int;
                    assert(self.verdicts().contains_key(k));
                    assert(entry_views(list@)[place].0 == k);
                }
            }
        }
        list
    }

    /// Whether verdicts came in since the cache was last saved.
    pub fn is_dirty(&self) -> (dirty: bool)
        ensures
            dirty == self.unsaved(),
    {
        self.dirty
    }

    /// Notes that the cache was saved.
    pub fn mark_saved(&mut self)
        ensures
            !final(self).unsaved(),
            final(self).verdicts() == old(self).verdicts(),
            final(self).well_formed() == old(self).well_formed(),
            final(self).model_name() == old(self).model_name(),
            final(self).judge_name() == old(self).judge_name(),
    {
        self.dirty = false;
        assert(self.verdicts() == old(self).verdicts());
    }
}

/// A table of distinct templates has each with its verdict.
proof fn lemma_table_of_distinct(list: Seq<(Seq<char>, VerdictView)>)
    requires
        forall|i: int, j: int|
            0 <= i < j < list.len() ==> (#[trigger] list[i]).0 != (#[trigger] list[j]).0,
    ensures
        forall|i: int|
            0 <= i < list.len() ==> table(list).contains_key((#[trigger] list[i]).0) && table(
                list,
            )[list[i].0] == list[i].1,
        forall|k: Seq<char>| #[trigger]
            table(list).contains_key(k) ==> exists|i: int|
                0 <= i < list.len() && (#[trigger] list[i]).0 == k,
    decreases list.len(),
{
    if list.len() > 0 {
        let rest = list.drop_last();
        lemma_table_of_distinct(rest);
        assert forall|i: int| 0 <= i < list.len() implies table(list).contains_key(
            (#[trigger] list[i]).0,
        ) && table(list)[list[i].0] == list[i].1 by {
            if i < rest.len() {
                assert(rest[i] == list[i]);
            }
        }
        assert forall|k: Seq<char>| #[trigger] table(list).contains_key(k) implies exists|i: int|
            0 <= i < list.len() && (#[trigger] list[i]).0 == k by {
            if k == list.last().0 {
                assert(list[list.len() - 1].0 == k);
            } else {
                assert(table(rest).contains_key(k));
                let i = choose|i: int| 0 <= i < rest.len() && (#[trigger] rest[i]).0 == k;
                assert(list[i].0 == k);
            }
        }
    }
}

/// A verdict that came in is found, as long as the model stays and there is
/// room; one of another model drives all others out.
pub proof fn law_cache_holds_one_model(
    verdicts: Map<Seq<char>, VerdictView>,
    current: Option<Seq<char>>,
    template: Seq<char>,
    verdict: VerdictView,
    model: Seq<char>,
    other: Seq<char>,
)
    requires
        other != template,
    ensures
        ({
            let after = kept(verdicts, current, model).insert(template, verdict);
            &&& after.contains_key(template)
            &&& after[template] == verdict
            &&& current is Some && current != Some(model) ==> !after.contains_key(other)
            &&& current == Some(model) && verdicts.len() < MAX_ENTRIES ==> (after.contains_key(
                other,
            ) <==> verdicts.contains_key(other)) && (verdicts.contains_key(other) ==> after[other]
                == verdicts[other])
        }),
{
}

/// A cache never outgrows its limit.
pub proof fn law_cache_is_bounded(
    verdicts: Map<Seq<char>, VerdictView>,
    current: Option<Seq<char>>,
    template: Seq<char>,
    verdict: VerdictView,
    model: Seq<char>,
)
    requires
        verdicts.dom().finite(),
        verdicts.len() <= MAX_ENTRIES,
    ensures
        kept(verdicts, current, model).insert(template, verdict).dom().finite(),
        kept(verdicts, current, model).insert(template, verdict).len() <= MAX_ENTRIES,
{
    let k = kept(verdicts, current, model);
    assert(k.insert(template, verdict).dom() == k.dom().insert(template));
}

/// What a cache held comes back when it is loaded: each template with its
/// verdict, where that is valid, and nothing else.
pub proof fn law_contents_come_back(list: Seq<(Seq<char>, VerdictView)>)
    requires
        forall|i: int, j: int|
            0 <= i < j < list.len() ==> (#[trigger] list[i]).0 != (#[trigger] list[j]).0,
    ensures
        forall|k: Seq<char>| #[trigger]
            valid_table(list).contains_key(k) <==> table(list).contains_key(k) && table(
                list,
            )[k].valid(),
        forall|k: Seq<char>| #[trigger]
            valid_table(list).contains_key(k) ==> valid_table(list)[k] == table(list)[k],
        (forall|i: int| 0 <= i < list.len() ==> (#[trigger] list[i]).1.valid()) ==> valid_table(list)
            == table(list),
    decreases list.len(),
{
    if list.len() > 0 {
        let rest = list.drop_last();
        law_contents_come_back(rest);
        lemma_table_of_distinct(rest);
        assert(!table(rest).contains_key(list.last().0)) by {
            if table(rest).contains_key(list.last().0) {
                let i = choose|i: int| 0 <= i < rest.len() && (#[trigger] rest[i]).0 == list.last().0;
                assert(list[i].0 == list[list.len() - 1].0);
            }
        }
        assert forall|k: Seq<char>| #[trigger] valid_table(list).contains_key(k) <==> table(
            list,
        ).contains_key(k) && table(list)[k].valid() by {
            assert(valid_table(rest).contains_key(k) <==> table(rest).contains_key(k) && table(
                rest,
            )[k].valid());
        }
        assert forall|k: Seq<char>| #[trigger] valid_table(list).contains_key(k) implies valid_table(
            list,
        )[k] == table(list)[k] by {
            if k != list.last().0 {
                assert(valid_table(rest).contains_key(k));
            }
        }
        if forall|i: int| 0 <= i < list.len() ==> (#[trigger] list[i]).1.valid() {
            assert forall|i: int| 0 <= i < rest.len() implies (#[trigger] rest[i]).1.valid() by {
                assert(list[i].1.valid());
            }
            assert(list[list.len() - 1].1.valid());
        }
    }
}

/// In a table the last entry of a template counts, and a template without an
/// entry is not in it.
pub proof fn law_last_entry_counts(list: Seq<(Seq<char>, VerdictView)>, template: Seq<char>, i: int)
    ensures
        0 <= i < list.len() && list[i].0 == template && (forall|j: int|
            i < j < list.len() ==> (#[trigger] list[j]).0 != template) ==> table(
            list,
        ).contains_key(template) && table(list)[template] == list[i].1,
        (forall|j: int| 0 <= j < list.len() ==> (#[trigger] list[j]).0 != template) ==> !table(
            list,
        ).contains_key(template),
    decreases list.len(),
{
    if list.len() > 0 {
        let rest = list.drop_last();
        law_last_entry_counts(rest, template, i);
        if forall|j: int| 0 <= j < list.len() ==> (#[trigger] list[j]).0 != template {
            assert forall|j: int| 0 <= j < rest.len() implies (#[trigger] rest[j]).0 != template by {
                assert(list[j].0 != template);
            }
            assert(list[list.len() - 1].0 != template);
        }
        if 0 <= i < rest.len() && list[i].0 == template && (forall|j: int|
            i < j < list.len() ==> (#[trigger] list[j]).0 != template) {
            assert forall|j: int| i < j < rest.len() implies (#[trigger] rest[j]).0 != template by {
                assert(list[j].0 != template);
            }
            assert(list[list.len() - 1].0 != template);
            assert(rest[i] == list[i]);
        }
    }
}

/// Of stored verdicts the last valid one of a template is taken over, and none
/// where no valid one is stored.
pub proof fn law_last_valid_entry_is_loaded(
    list: Seq<(Seq<char>, VerdictView)>,
    template: Seq<char>,
    i: int,
)
    ensures
        0 <= i < list.len() && list[i].0 == template && list[i].1.valid() && (forall|j: int|
            i < j < list.len() ==> (#[trigger] list[j]).0 != template || !list[j].1.valid())
            ==> valid_table(list).contains_key(template) && valid_table(list)[template]
            == list[i].1,
        (forall|j: int|
            0 <= j < list.len() ==> (#[trigger] list[j]).0 != template || !list[j].1.valid())
            ==> !valid_table(list).contains_key(template),
    decreases list.len(),
{
    if list.len() > 0 {
        let rest = list.drop_last();
        law_last_valid_entry_is_loaded(rest, template, i);
        if forall|j: int|
            0 <= j < list.len() ==> (#[trigger] list[j]).0 != template || !list[j].1.valid() {
            assert forall|j: int| 0 <= j < rest.len() implies (#[trigger] rest[j]).0 != template
                || !rest[j].1.valid() by {
                assert(list[j].0 != template || !list[j].1.valid());
            }
            assert(list[list.len() - 1].0 != template || !list[list.len() - 1].1.valid());
        }
        if 0 <= i < rest.len() && list[i].0 == template && list[i].1.valid() && (forall|j: int|
            i < j < list.len() ==> (#[trigger] list[j]).0 != template || !list[j].1.valid()) {
            assert forall|j: int| i < j < rest.len() implies (#[trigger] rest[j]).0 != template
                || !rest[j].1.valid() by {
                assert(list[j].0 != template || !list[j].1.valid());
            }
            assert(list[list.len() - 1].0 != template || !list[list.len() - 1].1.valid());
            assert(rest[i] == list[i]);
        }
    }
}

/// Entries stand for their template and their verdict, each in its place.
pub proof fn law_entries_stand_for_themselves(
    shared: Seq<(Arc<str>, Arc<Verdict>)>,
    stored: Seq<(String, Verdict)>,
)
    ensures
        entry_views(shared).len() == shared.len(),
        forall|i: int|
            0 <= i < shared.len() ==> #[trigger] entry_views(shared)[i] == (
                shared[i].0@,
                shared[i].1@,
            ),
        stored_views(stored).len() == stored.len(),
        forall|i: int|
            0 <= i < stored.len() ==> #[trigger] stored_views(stored)[i] == (
                stored[i].0@,
                stored[i].1@,
            ),
{
}

/// Verdicts are kept when one comes in, unless they are of another model or a
/// quarter of a million are held already: then none is.
pub proof fn law_verdicts_are_kept_or_dropped_together(
    verdicts: Map<Seq<char>, VerdictView>,
    current: Option<Seq<char>>,
    model: Seq<char>,
)
    ensures
        verdicts.len() < 250_000 && (current is None || current == Some(model)) ==> kept(
            verdicts,
            current,
            model,
        ) == verdicts,
        verdicts.len() >= 250_000 ==> kept(verdicts, current, model) == Map::<
            Seq<char>,
            VerdictView,
        >::empty(),
        current is Some && current->0 != model ==> kept(verdicts, current, model) == Map::<
            Seq<char>,
            VerdictView,
        >::empty(),
{
}

} // verus!
