//! What was dictated, so it can be copied again.
//!
//! Text lands wherever the cursor was on release, which is sometimes the wrong
//! window or nowhere at all. The history keeps every transcript that made it past
//! polishing. Capped so the file cannot grow without bound; nothing here is worth
//! more than a few hundred utterances of scrollback.

use vstd::prelude::*;

verus! {

/// Entries kept. At a few hundred bytes each this is well under a megabyte.
pub const CAP: usize = 500;

#[derive(Debug, PartialEq, Eq)]
pub struct Entry {
    /// Milliseconds since the Unix epoch when the dictation finished; also the id
    /// the UI deletes by. Bumped by one if two land in the same ms.
    pub id: u64,
    pub text: String,
    /// Wall-clock time the engine spent.
    pub inference_ms: u64,
    /// Release to text ready, before insertion.
    pub elapsed_ms: u64,
}

/// What an entry holds.
#[verifier::ext_equal]
pub ghost struct EntryView {
    pub id: u64,
    pub text: Seq<char>,
    pub inference_ms: u64,
    pub elapsed_ms: u64,
}

impl View for Entry {
    type V = EntryView;

    open spec fn view(&self) -> EntryView {
        EntryView {
            id: self.id,
            text: self.text@,
            inference_ms: self.inference_ms,
            elapsed_ms: self.elapsed_ms,
        }
    }
}

impl Clone for Entry {
    fn clone(&self) -> (r: Entry)
        ensures
            r@ == self@,
    {
        Entry {
            id: self.id,
            text: self.text.clone(),
            inference_ms: self.inference_ms,
            elapsed_ms: self.elapsed_ms,
        }
    }
}

/// What several entries hold.
pub open spec fn entry_views(entries: Seq<Entry>) -> Seq<EntryView> {
    Seq::new(entries.len(), |i: int| entries[i]@)
}

/// The id of a new entry: the time, or one more than the newest id where that is
/// not later.
pub open spec fn new_id(entries: Seq<EntryView>, now: u64) -> int {
    let last = if entries.len() == 0 {
        0
    } else {
        entries.last().id as int
    };
    if now > last {
        now as int
    } else {
        last + 1
    }
}

/// The newest entries, up to the cap.
pub open spec fn capped(entries: Seq<EntryView>) -> Seq<EntryView> {
    if entries.len() > CAP {
        entries.skip(entries.len() - CAP)
    } else {
        entries
    }
}

/// The entries with other ids.
pub open spec fn without(entries: Seq<EntryView>, id: u64) -> Seq<EntryView>
    decreases entries.len(),
{
    if entries.len() == 0 {
        Seq::empty()
    } else if entries.last().id == id {
        without(entries.drop_last(), id)
    } else {
        without(entries.drop_last(), id).push(entries.last())
    }
}

/// Whether the ids rise, so that none stands twice.
pub open spec fn ids_rise(entries: Seq<EntryView>) -> bool {
    forall|i: int, j: int|
        #![trigger entries[i], entries[j]]
        0 <= i < j < entries.len() ==> entries[i].id < entries[j].id
}

/// Ids stay unique, and in the order of dictation, through everything that is
/// done to a history; and it never holds more than its cap.
pub proof fn law_ids_stay_unique(entries: Seq<EntryView>, new: EntryView, id: u64, now: u64)
    requires
        ids_rise(entries),
        new.id == new_id(entries, now),
    ensures
        ids_rise(capped(entries.push(new))),
        ids_rise(without(entries, id)),
        capped(entries.push(new)).len() <= CAP,
        capped(entries.push(new)).last() == new,
{
    let all = entries.push(new);
    assert forall|i: int, j: int|
        #![trigger all[i], all[j]]
        0 <= i < j < all.len() implies all[i].id < all[j].id by {
        if j == entries.len() && i < entries.len() - 1 {
            assert(entries[i].id < entries[entries.len() - 1].id);
        }
    }
    let kept = capped(all);
    let cut = all.len() - kept.len();
    assert forall|i: int, j: int|
        #![trigger kept[i], kept[j]]
        0 <= i < j < kept.len() implies kept[i].id < kept[j].id by {
        assert(kept[i] == all[cut + i] && kept[j] == all[cut + j]);
    }
    lemma_without(entries, id);
}

/// The cap takes the oldest, and no more of them than it must.
pub proof fn law_the_newest_are_kept(entries: Seq<EntryView>)
    ensures
        capped(entries).len() == (if entries.len() < 500 {
            entries.len() as int
        } else {
            500
        }),
        forall|i: int|
            0 <= i < capped(entries).len() ==> #[trigger] capped(entries)[i] == entries[entries.len()
                - capped(entries).len() + i],
{
}

/// The id of a new entry is the time, unless the newest id has reached that
/// already; then it is the next one.
pub proof fn law_an_id_is_a_time(entries: Seq<EntryView>, now: u64)
    requires
        now > 0,
    ensures
        new_id(entries, now) >= now,
        entries.len() > 0 ==> new_id(entries, now) > entries.last().id,
        entries.len() == 0 || entries.last().id < now ==> new_id(entries, now) == now,
        entries.len() > 0 && entries.last().id >= now ==> new_id(entries, now) == entries.last().id
            + 1,
{
}

/// Removal leaves exactly the entries with other ids, in their order.
pub proof fn law_removal_keeps_the_order(entries: Seq<EntryView>, id: u64)
    ensures
        without(entries, id) == entries.filter(|e: EntryView| e.id != id),
    decreases entries.len(),
{
    reveal(Seq::filter);
    if entries.len() > 0 {
        law_removal_keeps_the_order(entries.drop_last(), id);
    }
}

/// Removal leaves a part of the entries in their order.
proof fn lemma_without(entries: Seq<EntryView>, id: u64)
    requires
        ids_rise(entries),
    ensures
        ids_rise(without(entries, id)),
        without(entries, id).len() > 0 ==> entries.len() > 0 && without(entries, id).last().id
            <= entries.last().id,
    decreases entries.len(),
{
    if entries.len() > 0 {
        let front = entries.drop_last();
        assert(ids_rise(front)) by {
            assert forall|i: int, j: int|
                #![trigger front[i], front[j]]
                0 <= i < j < front.len() implies front[i].id < front[j].id by {
                assert(entries[i].id < entries[j].id);
            }
        }
        lemma_without(front, id);
        let rest = without(front, id);
        let now = without(entries, id);
        if front.len() > 0 {
            assert(entries[front.len() - 1].id < entries[entries.len() - 1].id);
        }
        if entries.last().id != id {
            assert forall|i: int, j: int|
                #![trigger now[i], now[j]]
                0 <= i < j < now.len() implies now[i].id < now[j].id by {
                if j == rest.len() {
                    assert(now[i] == rest[i]);
                    if i < rest.len() - 1 {
                        assert(rest[i].id < rest[rest.len() - 1].id);
                    }
                } else {
                    assert(rest[i].id < rest[j].id);
                }
            }
        }
    }
}

/// After a removal no entry has the id, and every other entry is still there.
pub proof fn law_removal_takes_one_id(entries: Seq<EntryView>, id: u64)
    ensures
        forall|i: int| 0 <= i < without(entries, id).len() ==> (#[trigger] without(entries, id)[i]).id != id,
        forall|e: EntryView| e.id != id && #[trigger] entries.contains(e) ==> without(
            entries,
            id,
        ).contains(e),
    decreases entries.len(),
{
    if entries.len() > 0 {
        let front = entries.drop_last();
        law_removal_takes_one_id(front, id);
        let rest = without(front, id);
        let now = without(entries, id);
        assert forall|e: EntryView| e.id != id && #[trigger] entries.contains(e) implies now.contains(
            e,
        ) by {
            let i = choose|i: int| 0 <= i < entries.len() && entries[i] == e;
            if i < front.len() {
                assert(front[i] == e);
                assert(front.contains(e));
                let k = choose|k: int| 0 <= k < rest.len() && rest[k] == e;
                assert(now[k] == e);
            } else {
                assert(now[rest.len() as int] == e);
            }
        }
        assert forall|i: int| 0 <= i < now.len() implies (#[trigger] now[i]).id != id by {
            if i < rest.len() {
                assert(now[i] == rest[i]);
            }
        }
    }
}

/// What was dictated, oldest first, and where it is kept.
pub struct History {
    entries: Vec<Entry>,
    path: Option<String>,
}

impl View for History {
    type V = Seq<EntryView>;

    closed spec fn view(&self) -> Seq<EntryView> {
        entry_views(self.entries@)
    }
}

impl History {
    /// Where it is kept, if anywhere.
    pub closed spec fn place(self) -> Option<Seq<char>> {
        match self.path {
            Some(p) => Some(p@),
            None => None,
        }
    }

    /// The history that a file held, or an empty one where it could not be read:
    /// history that cannot be read is not worth refusing to dictate over.
    pub fn load(stored: Option<Vec<Entry>>, path: Option<String>) -> (r: History)
        ensures
            r@ == match stored {
                Some(entries) => entry_views(entries@),
                None => Seq::empty(),
            },
            r.place() == match path {
                Some(p) => Some(p@),
                None => None,
            },
    {
        let entries: Vec<Entry> = match stored {
            Some(entries) => entries,
            None => Vec::new(),
        };
        assert(entry_views(Seq::<Entry>::empty()) == Seq::<EntryView>::empty());
        History { entries, path }
    }

    /// In-memory only.
    pub fn in_memory() -> (r: History)
        ensures
            r@ == Seq::<EntryView>::empty(),
            r.place() is None,
    {
        let r: History = History { entries: Vec::new(), path: None };
        assert(r@ == Seq::<EntryView>::empty());
        r
    }

    /// Adds a dictation that finished at `now`, in milliseconds since the Unix
    /// epoch, and gives back its entry.
    pub fn push(&mut self, now: u64, text: String, inference_ms: u64, elapsed_ms: u64) -> (r: Entry)
        requires
            old(self)@.len() > 0 ==> old(self)@.last().id < u64::MAX,
        ensures
            r@ == (EntryView {
                id: new_id(old(self)@, now) as u64,
                text: text@,
                inference_ms,
                elapsed_ms,
            }),
            final(self)@ == capped(old(self)@.push(r@)),
            final(self).place() == old(self).place(),
    {
        let ghost before = self@;
        let last: u64 = if self.entries.len() == 0 {
            0
        } else {
            assert(before.last() == self.entries@.last()@);
            self.entries[self.entries.len() - 1].id
        };
        let id: u64 = if now > last {
            now
        } else {
            last + 1
        };
        let entry: Entry = Entry { id, text, inference_ms, elapsed_ms };
        let kept: Entry = entry.clone();
        self.entries.push(kept);
        assert(self@ == before.push(entry@));
        if self.entries.len() > CAP {
            let excess: usize = self.entries.len() - CAP;
            let ghost all = self@;
            let newest: Vec<Entry> = self.entries.split_off(excess);
            self.entries = newest;
            assert(self@ == all.skip(excess as int));
        }
        entry
    }

    /// Newest first, as the window lists them.
    pub fn entries(&self) -> (r: Vec<Entry>)
        ensures
            entry_views(r@) == self@.reverse(),
    {
        let mut r: Vec<Entry> = Vec::new();
        let mut i: usize = self.entries.len();
        while i > 0
            invariant
                i <= self.entries.len(),
                entry_views(r@) == self@.skip(i as int).reverse(),
            decreases i,
        {
            i -= 1;
            let ghost before = entry_views(r@);
            let e: Entry = self.entries[i].clone();
            let ghost v = e@;
            r.push(e);
            proof {
                assert(entry_views(r@) == before.push(v));
                assert(self@.skip(i as int).reverse() == self@.skip(i + 1).reverse().push(
                    self@[i as int],
                ));
            }
        }
        assert(self@.skip(0) == self@);
        r
    }

    /// Forgets an entry.
    pub fn remove(&mut self, id: u64)
        ensures
            final(self)@ == without(old(self)@, id),
            final(self).place() == old(self).place(),
    {
        let ghost before = self@;
        let mut kept: Vec<Entry> = Vec::new();
        let mut i: usize = 0;
        assert(entry_views(kept@) == Seq::<EntryView>::empty());
        while i < self.entries.len()
            invariant
                i <= self.entries.len(),
                before == self@,
                entry_views(kept@) == without(before.take(i as int), id),
            decreases self.entries.len() - i,
        {
            proof {
                assert(before.take(i as int + 1).drop_last() == before.take(i as int));
                assert(before.take(i as int + 1).last() == self.entries@[i as int]@);
            }
            if self.entries[i].id != id {
                let ghost rest = entry_views(kept@);
                let e: Entry = self.entries[i].clone();
                let ghost v = e@;
                kept.push(e);
                assert(entry_views(kept@) == rest.push(v));
            }
            i += 1;
        }
        assert(before.take(i as int) == before);
        self.entries = kept;
    }

    /// Forgets everything.
    pub fn clear(&mut self)
        ensures
            final(self)@ == Seq::<EntryView>::empty(),
            final(self).place() == old(self).place(),
    {
        self.entries = Vec::new();
        assert(self@ == Seq::<EntryView>::empty());
    }

    /// How many entries there are.
    pub fn len(&self) -> (r: usize)
        ensures
            r == self@.len(),
    {
        self.entries.len()
    }

    /// The entries, oldest first, as they are kept.
    pub fn stored(&self) -> (r: &Vec<Entry>)
        ensures
            entry_views(r@) == self@,
    {
        &self.entries
    }

    /// Where it is kept, if anywhere.
    pub fn path(&self) -> (r: Option<&String>)
        ensures
            match r {
                Some(p) => self.place() == Some(p@),
                None => self.place() is None,
            },
    {
        match &self.path {
            Some(p) => Some(p),
            None => None,
        }
    }
}

} // verus!
