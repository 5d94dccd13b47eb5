//! The record store: CRUD and soft-delete semantics over note records.
//!
//! Records are kept strictly ordered by ascending id, so ids are unique and
//! every listing is deterministic.  Single-record updates are no-ops when the
//! id matches nothing; batch restore and batch delete touch exactly the
//! selected records.  The store itself is the in-memory state; a persistence
//! layer outside the library mirrors each committed operation to disk.

use vstd::prelude::*;

use crate::order::lemma_lex_lt_connected;
use crate::order::lemma_lex_lt_irreflexive;
use crate::order::lemma_lex_lt_transitive;
use crate::order::lex_lt;
use crate::order::str_eq;
use crate::order::str_lt;
use crate::sticker::set_archived;
use crate::sticker::set_markdown;
use crate::sticker::set_color;
use crate::sticker::set_pinned;
use crate::sticker::set_position;
use crate::sticker::set_size;
use crate::sticker::Sticker;
use crate::sticker::StickerModel;

verus! {

/// A failure of a store operation.
#[derive(Clone, Copy, Debug, PartialEq, Eq, Structural)]
pub enum StoreError {
    /// The requested id matches no record.
    NotFound,
    /// A record with the same id already exists.
    ConstraintViolation,
}

/// Index of the first record with the given id, or `-1` if there is none.
pub open spec fn spec_find(s: Seq<StickerModel>, id: Seq<char>) -> int
    decreases s.len(),
{
    if s.len() == 0 {
        -1
    } else if s[0].uuid == id {
        0
    } else {
        let r = spec_find(s.drop_first(), id);
        if r == -1 {
            -1
        } else {
            r + 1
        }
    }
}

/// Records strictly ordered by ascending id.
pub open spec fn sorted_ids(s: Seq<StickerModel>) -> bool {
    forall|i: int, j: int|
        #![trigger s[i], s[j]]
        0 <= i < j < s.len() ==> lex_lt(s[i].uuid, s[j].uuid)
}

/// The records that are live (not soft-deleted), in store order.
pub open spec fn live_records(s: Seq<StickerModel>) -> Seq<StickerModel> {
    s.filter(|m: StickerModel| !m.archived)
}

/// The records that are archived (soft-deleted), in store order.
pub open spec fn archived_records(s: Seq<StickerModel>) -> Seq<StickerModel> {
    s.filter(|m: StickerModel| m.archived)
}

/// The records whose id is not among `ids`, in store order.
pub open spec fn surviving_records(s: Seq<StickerModel>, ids: Seq<Seq<char>>) -> Seq<
    StickerModel,
> {
    s.filter(|m: StickerModel| !ids.contains(m.uuid))
}

/// The records whose id is among `ids`, in store order.
pub open spec fn selected_records(s: Seq<StickerModel>, ids: Seq<Seq<char>>) -> Seq<
    StickerModel,
> {
    s.filter(|m: StickerModel| ids.contains(m.uuid))
}

/// What `spec_find` finds is the first match; a miss means no match at all.
pub proof fn lemma_find_props(s: Seq<StickerModel>, id: Seq<char>)
    ensures
        spec_find(s, id) >= -1,
        spec_find(s, id) == -1 ==> forall|j: int|
            0 <= j < s.len() ==> (#[trigger] s[j]).uuid != id,
        spec_find(s, id) >= 0 ==> 0 <= spec_find(s, id) < s.len() && s[spec_find(s, id)].uuid
            == id && forall|j: int| 0 <= j < spec_find(s, id) ==> (#[trigger] s[j]).uuid != id,
    decreases s.len(),
{
    if s.len() > 0 && s[0].uuid != id {
        lemma_find_props(s.drop_first(), id);
        let r = spec_find(s.drop_first(), id);
        if r == -1 {
            assert forall|j: int| 0 <= j < s.len() implies (#[trigger] s[j]).uuid != id by {
                if j > 0 {
                    assert(s[j] == s.drop_first()[j - 1]);
                    assert(s.drop_first()[j - 1].uuid != id);
                }
            }
        } else {
            assert(spec_find(s, id) == r + 1);
            assert(s[r + 1] == s.drop_first()[r]);
            assert forall|j: int| 0 <= j < r + 1 implies (#[trigger] s[j]).uuid != id by {
                if j > 0 {
                    assert(s[j] == s.drop_first()[j - 1]);
                    assert(s.drop_first()[j - 1].uuid != id);
                }
            }
        }
    }
}

/// A first match at `k` pins `spec_find` to `k`.
pub proof fn lemma_find_at(s: Seq<StickerModel>, id: Seq<char>, k: int)
    requires
        0 <= k < s.len(),
        s[k].uuid == id,
        forall|j: int| 0 <= j < k ==> (#[trigger] s[j]).uuid != id,
    ensures
        spec_find(s, id) == k,
    decreases s.len(),
{
    if k > 0 {
        assert(forall|j: int| 1 <= j < s.len() ==> (#[trigger] s[j]) == s.drop_first()[j - 1]);
        assert(forall|j: int|
            0 <= j < k - 1 ==> (#[trigger] s.drop_first()[j]).uuid != id) by {
            assert(forall|j: int|
                0 <= j < k - 1 ==> (#[trigger] s.drop_first()[j]) == s[j + 1]);
        }
        lemma_find_at(s.drop_first(), id, k - 1);
    }
}

/// When no record carries the id, `spec_find` misses.
pub proof fn lemma_find_none(s: Seq<StickerModel>, id: Seq<char>)
    requires
        forall|j: int| 0 <= j < s.len() ==> (#[trigger] s[j]).uuid != id,
    ensures
        spec_find(s, id) == -1,
{
    lemma_find_props(s, id);
}

/// Replacing a record with one carrying the same id moves no search result.
pub proof fn lemma_find_update(s: Seq<StickerModel>, i: int, m: StickerModel, id: Seq<char>)
    requires
        0 <= i < s.len(),
        m.uuid == s[i].uuid,
    ensures
        spec_find(s.update(i, m), id) == spec_find(s, id),
    decreases s.len(),
{
    let t = s.update(i, m);
    assert(t[0].uuid == s[0].uuid);
    if s[0].uuid == id {
    } else {
        if i == 0 {
            assert(t.drop_first() =~= s.drop_first());
        } else {
            assert(t.drop_first() =~= s.drop_first().update(i - 1, m));
            assert(s.drop_first()[i - 1] == s[i]);
            lemma_find_update(s.drop_first(), i - 1, m, id);
        }
    }
}

/// In a strictly ordered store every id occurs at most once.
pub proof fn lemma_sorted_ids_unique(s: Seq<StickerModel>)
    requires
        sorted_ids(s),
    ensures
        forall|i: int, j: int|
            #![trigger s[i], s[j]]
            0 <= i < s.len() && 0 <= j < s.len() && i != j ==> s[i].uuid != s[j].uuid,
{
    assert forall|i: int, j: int|
        #![trigger s[i], s[j]]
        0 <= i < s.len() && 0 <= j < s.len() && i != j implies s[i].uuid != s[j].uuid by {
        if i < j {
            lemma_lex_lt_irreflexive(s[i].uuid);
        } else {
            lemma_lex_lt_irreflexive(s[j].uuid);
        }
    }
}

/// Replacing a record with one carrying the same id keeps the order.
proof fn lemma_update_keeps_sorted(s: Seq<StickerModel>, i: int, m: StickerModel)
    requires
        sorted_ids(s),
        0 <= i < s.len(),
        m.uuid == s[i].uuid,
    ensures
        sorted_ids(s.update(i, m)),
{
    let t = s.update(i, m);
    assert forall|p: int, q: int|
        #![trigger t[p], t[q]]
        0 <= p < q < t.len() implies lex_lt(t[p].uuid, t[q].uuid) by {
        assert(t[p].uuid == s[p].uuid);
        assert(t[q].uuid == s[q].uuid);
        assert(lex_lt(s[p].uuid, s[q].uuid));
    }
}

/// Filtering distributes over appending one record.
pub proof fn lemma_filter_push(
    s: Seq<StickerModel>,
    pred: spec_fn(StickerModel) -> bool,
    x: StickerModel,
)
    ensures
        s.push(x).filter(pred) == (if pred(x) {
            s.filter(pred).push(x)
        } else {
            s.filter(pred)
        }),
{
    reveal_with_fuel(Seq::<StickerModel>::filter, 2);
    assert(s.push(x).drop_last() =~= s);
    assert(s.push(x).last() == x);
}

/// Every record a filter keeps comes from the filtered sequence.
pub proof fn lemma_filter_subset(s: Seq<StickerModel>, pred: spec_fn(StickerModel) -> bool)
    ensures
        forall|p: int|
            0 <= p < s.filter(pred).len() ==> s.contains(#[trigger] s.filter(pred)[p]),
    decreases s.len(),
{
    if s.len() > 0 {
        let t = s.drop_last();
        lemma_filter_subset(t, pred);
        assert(t.push(s.last()) =~= s);
        lemma_filter_push(t, pred, s.last());
        assert forall|p: int|
            0 <= p < s.filter(pred).len() implies s.contains(#[trigger] s.filter(pred)[p]) by {
            if p < t.filter(pred).len() {
                assert(t.contains(t.filter(pred)[p]));
                let k = choose|k: int| 0 <= k < t.len() && t[k] == t.filter(pred)[p];
                assert(s[k] == t.filter(pred)[p]);
            } else {
                assert(s.filter(pred)[p] == s.last());
                assert(s[s.len() - 1] == s.last());
            }
        }
    }
}

/// Filtering a strictly ordered sequence keeps it strictly ordered.
pub proof fn lemma_filter_sorted(s: Seq<StickerModel>, pred: spec_fn(StickerModel) -> bool)
    requires
        sorted_ids(s),
    ensures
        sorted_ids(s.filter(pred)),
    decreases s.len(),
{
    if s.len() > 0 {
        let t = s.drop_last();
        assert(sorted_ids(t)) by {
            assert forall|p: int, q: int|
                #![trigger t[p], t[q]]
                0 <= p < q < t.len() implies lex_lt(t[p].uuid, t[q].uuid) by {
                assert(t[p] == s[p]);
                assert(t[q] == s[q]);
            }
        }
        lemma_filter_sorted(t, pred);
        assert(t.push(s.last()) =~= s);
        lemma_filter_push(t, pred, s.last());
        if pred(s.last()) {
            let f = t.filter(pred);
            lemma_filter_subset(t, pred);
            let g = s.filter(pred);
            assert(g == f.push(s.last()));
            assert forall|p: int, q: int|
                #![trigger g[p], g[q]]
                0 <= p < q < g.len() implies lex_lt(g[p].uuid, g[q].uuid) by {
                if q < f.len() {
                    assert(g[p] == f[p]);
                    assert(g[q] == f[q]);
                } else {
                    assert(g[q] == s.last());
                    if p < f.len() {
                        assert(g[p] == f[p]);
                        assert(t.contains(f[p]));
                        let k = choose|k: int| 0 <= k < t.len() && t[k] == f[p];
                        assert(s[k] == f[p]);
                        assert(lex_lt(s[k].uuid, s[s.len() - 1].uuid));
                    }
                }
            }
        }
    }
}

/// Decides whether an id occurs in a list of ids.
fn contains_str(ids: &Vec<String>, s: &str) -> (r: bool)
    ensures
        r == ids.deep_view().contains(s@),
{
    let n = ids.len();
    let mut k: usize = 0;
    while k < n
        invariant
            k <= n,
            n == ids.len(),
            forall|m: int| 0 <= m < k ==> ids.deep_view()[m] != s@,
        decreases n - k,
    {
        if str_eq(ids[k].as_str(), s) {
            proof {
                assert(ids.deep_view()[k as int] == s@);
            }
            return true;
        }
        k = k + 1;
    }
    proof {
        assert(!ids.deep_view().contains(s@));
    }
    false
}

/// The durable table of note records, ordered by ascending id.
pub struct Store {
    records: Vec<Sticker>,
}

impl View for Store {
    type V = Seq<StickerModel>;

    closed spec fn view(&self) -> Seq<StickerModel> {
        self.records.deep_view()
    }
}

impl Store {
    /// Well-formed: records strictly ordered by ascending id.
    pub open spec fn wf(&self) -> bool {
        sorted_ids(self@)
    }

    /// An empty store.
    pub fn new() -> (s: Store)
        ensures
            s.wf(),
            s@ == Seq::<StickerModel>::empty(),
    {
        let s = Store { records: Vec::new() };
        proof {
            assert(s@ =~= Seq::<StickerModel>::empty());
        }
        s
    }

    /// Index of the record with the given id, if any.
    fn find_index(&self, id: &str) -> (r: Option<usize>)
        ensures
            match r {
                Some(i) => spec_find(self@, id@) == i as int && i < self@.len(),
                None => spec_find(self@, id@) == -1,
            },
    {
        let n = self.records.len();
        let mut k: usize = 0;
        while k < n
            invariant
                k <= n,
                n == self.records.len(),
                forall|j: int| 0 <= j < k ==> (#[trigger] self@[j]).uuid != id@,
            decreases n - k,
        {
            if str_eq(self.records[k].uuid.as_str(), id) {
                proof {
                    lemma_find_at(self@, id@, k as int);
                }
                return Some(k);
            }
            k = k + 1;
        }
        proof {
            lemma_find_none(self@, id@);
        }
        None
    }

    /// First position whose id is not below the given id.
    fn lower_bound(&self, id: &str) -> (k: usize)
        ensures
            k <= self@.len(),
            forall|j: int| 0 <= j < k ==> lex_lt((#[trigger] self@[j]).uuid, id@),
            k < self@.len() ==> !lex_lt(self@[k as int].uuid, id@),
    {
        let n = self.records.len();
        let mut k: usize = 0;
        while k < n
            invariant
                k <= n,
                n == self.records.len(),
                forall|j: int| 0 <= j < k ==> lex_lt((#[trigger] self@[j]).uuid, id@),
            decreases n - k,
        {
            if !str_lt(self.records[k].uuid.as_str(), id) {
                return k;
            }
            k = k + 1;
        }
        k
    }

    /// Inserts a new record; fails when its id is already present.
    pub fn create(&mut self, sticker: Sticker) -> (r: Result<(), StoreError>)
        requires
            old(self).wf(),
        ensures
            final(self).wf(),
            spec_find(old(self)@, sticker@.uuid) >= 0 ==> r == Err::<(), StoreError>(
                StoreError::ConstraintViolation,
            ) && final(self)@ == old(self)@,
            spec_find(old(self)@, sticker@.uuid) == -1 ==> r == Ok::<(), StoreError>(()) && (
            exists|i: int|
                0 <= i <= old(self)@.len() && final(self)@ == old(self)@.insert(i, sticker@)),
    {
        let k = self.lower_bound(sticker.uuid.as_str());
        let n = self.records.len();
        if k < n && str_eq(self.records[k].uuid.as_str(), sticker.uuid.as_str()) {
            proof {
                assert forall|j: int|
                    0 <= j < k implies (#[trigger] self@[j]).uuid != sticker@.uuid by {
                    lemma_lex_lt_irreflexive(self@[j].uuid);
                }
                lemma_find_at(self@, sticker@.uuid, k as int);
            }
            return Err(StoreError::ConstraintViolation);
        }
        proof {
            assert forall|j: int|
                k <= j < self@.len() implies lex_lt(sticker@.uuid, (#[trigger] self@[j]).uuid) by {
                if !lex_lt(sticker@.uuid, self@[k as int].uuid) {
                    lemma_lex_lt_connected(self@[k as int].uuid, sticker@.uuid);
                }
                assert(lex_lt(sticker@.uuid, self@[k as int].uuid));
                if j > k {
                    lemma_lex_lt_transitive(
                        sticker@.uuid,
                        self@[k as int].uuid,
                        self@[j].uuid,
                    );
                }
            }
            assert forall|j: int|
                0 <= j < self@.len() implies (#[trigger] self@[j]).uuid != sticker@.uuid by {
                lemma_lex_lt_irreflexive(self@[j].uuid);
            }
            lemma_find_none(self@, sticker@.uuid);
        }
        let ghost prev = self@;
        let ghost m = sticker@;
        self.records.insert(k, sticker);
        proof {
            assert(self@ =~= prev.insert(k as int, m));
            let t = prev.insert(k as int, m);
            assert forall|p: int, q: int|
                #![trigger t[p], t[q]]
                0 <= p < q < t.len() implies lex_lt(t[p].uuid, t[q].uuid) by {
                if q < k {
                    assert(t[p] == prev[p]);
                    assert(t[q] == prev[q]);
                } else if p < k && q == k {
                    assert(t[p] == prev[p]);
                    assert(t[q] == m);
                } else if p < k && q > k {
                    assert(t[p] == prev[p]);
                    assert(t[q] == prev[q - 1]);
                } else if p == k {
                    assert(t[p] == m);
                    assert(t[q] == prev[q - 1]);
                } else {
                    assert(t[p] == prev[p - 1]);
                    assert(t[q] == prev[q - 1]);
                }
            }
        }
        Ok(())
    }

    /// Reads the record with the given id; fails when it is absent.
    pub fn get(&self, id: &str) -> (r: Result<Sticker, StoreError>)
        ensures
            spec_find(self@, id@) == -1 ==> r == Err::<Sticker, StoreError>(StoreError::NotFound),
            spec_find(self@, id@) >= 0 ==> (r matches Ok(s) && s@ == self@[spec_find(self@, id@)]),
    {
        match self.find_index(id) {
            Some(i) => Ok(self.records[i].clone()),
            None => Err(StoreError::NotFound),
        }
    }

    /// Replaces the markdown payload of the matching record; a no-op when the
    /// id matches nothing.
    pub fn update_markdown(&mut self, id: &str, markdown: &str)
        requires
            old(self).wf(),
        ensures
            final(self).wf(),
            spec_find(old(self)@, id@) == -1 ==> final(self)@ == old(self)@,
            spec_find(old(self)@, id@) >= 0 ==> final(self)@ == old(self)@.update(
                spec_find(old(self)@, id@),
                set_markdown(old(self)@[spec_find(old(self)@, id@)], markdown@),
            ),
    {
        match self.find_index(id) {
            Some(i) => {
                self.records[i].markdown = markdown.to_owned();
                proof {
                    let m = set_markdown(old(self)@[i as int], markdown@);
                    assert(self@ =~= old(self)@.update(i as int, m));
                    lemma_update_keeps_sorted(old(self)@, i as int, m);
                }
            },
            None => {},
        }
    }

    /// Replaces the display color of the matching record; a no-op when the id
    /// matches nothing.
    pub fn update_color(&mut self, id: &str, color: &str)
        requires
            old(self).wf(),
        ensures
            final(self).wf(),
            spec_find(old(self)@, id@) == -1 ==> final(self)@ == old(self)@,
            spec_find(old(self)@, id@) >= 0 ==> final(self)@ == old(self)@.update(
                spec_find(old(self)@, id@),
                set_color(old(self)@[spec_find(old(self)@, id@)], color@),
            ),
    {
        match self.find_index(id) {
            Some(i) => {
                self.records[i].color = color.to_owned();
                proof {
                    let m = set_color(old(self)@[i as int], color@);
                    assert(self@ =~= old(self)@.update(i as int, m));
                    lemma_update_keeps_sorted(old(self)@, i as int, m);
                }
            },
            None => {},
        }
    }

    /// Records the last host-reported position of the matching record; a
    /// no-op when the id matches nothing.
    pub fn update_position(&mut self, id: &str, pos_x: i32, pos_y: i32)
        requires
            old(self).wf(),
        ensures
            final(self).wf(),
            spec_find(old(self)@, id@) == -1 ==> final(self)@ == old(self)@,
            spec_find(old(self)@, id@) >= 0 ==> final(self)@ == old(self)@.update(
                spec_find(old(self)@, id@),
                set_position(old(self)@[spec_find(old(self)@, id@)], pos_x as int, pos_y as int),
            ),
    {
        match self.find_index(id) {
            Some(i) => {
                self.records[i].pos_x = pos_x;
                self.records[i].pos_y = pos_y;
                proof {
                    let m = set_position(old(self)@[i as int], pos_x as int, pos_y as int);
                    assert(self@ =~= old(self)@.update(i as int, m));
                    lemma_update_keeps_sorted(old(self)@, i as int, m);
                }
            },
            None => {},
        }
    }

    /// Records the last host-reported size of the matching record; a no-op
    /// when the id matches nothing.
    pub fn update_size(&mut self, id: &str, width: u32, height: u32)
        requires
            old(self).wf(),
        ensures
            final(self).wf(),
            spec_find(old(self)@, id@) == -1 ==> final(self)@ == old(self)@,
            spec_find(old(self)@, id@) >= 0 ==> final(self)@ == old(self)@.update(
                spec_find(old(self)@, id@),
                set_size(old(self)@[spec_find(old(self)@, id@)], width as int, height as int),
            ),
    {
        match self.find_index(id) {
            Some(i) => {
                self.records[i].width = width;
                self.records[i].height = height;
                proof {
                    let m = set_size(old(self)@[i as int], width as int, height as int);
                    assert(self@ =~= old(self)@.update(i as int, m));
                    lemma_update_keeps_sorted(old(self)@, i as int, m);
                }
            },
            None => {},
        }
    }

    /// Flips the pin flag of the matching record and returns the new value;
    /// returns `false` without a change when the id matches nothing.
    pub fn toggle_pinned(&mut self, id: &str) -> (r: bool)
        requires
            old(self).wf(),
        ensures
            final(self).wf(),
            spec_find(old(self)@, id@) == -1 ==> final(self)@ == old(self)@ && r == false,
            spec_find(old(self)@, id@) >= 0 ==> ({
                let i = spec_find(old(self)@, id@);
                final(self)@ == old(self)@.update(i, set_pinned(old(self)@[i], !old(self)@[i].pinned))
                    && r == !old(self)@[i].pinned
            }),
    {
        match self.find_index(id) {
            Some(i) => {
                let p = !self.records[i].pinned;
                self.records[i].pinned = p;
                proof {
                    let m = set_pinned(old(self)@[i as int], !old(self)@[i as int].pinned);
                    assert(self@ =~= old(self)@.update(i as int, m));
                    lemma_update_keeps_sorted(old(self)@, i as int, m);
                }
                p
            },
            None => false,
        }
    }

    /// Soft-deletes the matching record; idempotent, and a no-op when the id
    /// matches nothing.
    pub fn archive(&mut self, id: &str)
        requires
            old(self).wf(),
        ensures
            final(self).wf(),
            spec_find(old(self)@, id@) == -1 ==> final(self)@ == old(self)@,
            spec_find(old(self)@, id@) >= 0 ==> final(self)@ == old(self)@.update(
                spec_find(old(self)@, id@),
                set_archived(old(self)@[spec_find(old(self)@, id@)], true),
            ),
    {
        match self.find_index(id) {
            Some(i) => {
                self.records[i].archived = true;
                proof {
                    let m = set_archived(old(self)@[i as int], true);
                    assert(self@ =~= old(self)@.update(i as int, m));
                    lemma_update_keeps_sorted(old(self)@, i as int, m);
                }
            },
            None => {},
        }
    }

    /// Un-archives every record whose id is among `ids`, as one unit; records
    /// with other ids are untouched, and no other field changes.
    pub fn restore(&mut self, ids: &Vec<String>)
        requires
            old(self).wf(),
        ensures
            final(self).wf(),
            final(self)@.len() == old(self)@.len(),
            forall|j: int|
                0 <= j < old(self)@.len() ==> final(self)@[j] == (if ids.deep_view().contains(
                    (#[trigger] old(self)@[j]).uuid,
                ) {
                    set_archived(old(self)@[j], false)
                } else {
                    old(self)@[j]
                }),
    {
        let n = self.records.len();
        let mut j: usize = 0;
        while j < n
            invariant
                j <= n,
                n == self@.len(),
                self@.len() == old(self)@.len(),
                forall|q: int| j <= q < self@.len() ==> self@[q] == old(self)@[q],
                forall|q: int|
                    0 <= q < j ==> self@[q] == (if ids.deep_view().contains(
                        (#[trigger] old(self)@[q]).uuid,
                    ) {
                        set_archived(old(self)@[q], false)
                    } else {
                        old(self)@[q]
                    }),
            decreases n - j,
        {
            let ghost pre = self@;
            let hit = contains_str(ids, self.records[j].uuid.as_str());
            if hit {
                self.records[j].archived = false;
                proof {
                    assert(self@ =~= pre.update(
                        j as int,
                        set_archived(pre[j as int], false),
                    ));
                }
            }
            j = j + 1;
        }
        proof {
            assert forall|p: int, q: int|
                #![trigger self@[p], self@[q]]
                0 <= p < q < self@.len() implies lex_lt(self@[p].uuid, self@[q].uuid) by {
                assert(self@[p].uuid == old(self)@[p].uuid);
                assert(self@[q].uuid == old(self)@[q].uuid);
                assert(lex_lt(old(self)@[p].uuid, old(self)@[q].uuid));
            }
        }
    }

    /// Erases every record whose id is among `ids`, as one unit; the
    /// surviving records keep their order.
    pub fn delete_permanently(&mut self, ids: &Vec<String>)
        requires
            old(self).wf(),
        ensures
            final(self).wf(),
            final(self)@ == surviving_records(old(self)@, ids.deep_view()),
    {
        let n = self.records.len();
        let mut kept: Vec<Sticker> = Vec::new();
        let mut j: usize = 0;
        proof {
            assert(old(self)@.subrange(0, 0) =~= Seq::<StickerModel>::empty());
            assert(kept.deep_view() =~= surviving_records(
                old(self)@.subrange(0, 0),
                ids.deep_view(),
            ));
        }
        while j < n
            invariant
                j <= n,
                n == self@.len(),
                self@ == old(self)@,
                kept.deep_view() == surviving_records(
                    old(self)@.subrange(0, j as int),
                    ids.deep_view(),
                ),
            decreases n - j,
        {
            let ghost prefix = old(self)@.subrange(0, j as int);
            let ghost prev = kept.deep_view();
            let hit = contains_str(ids, self.records[j].uuid.as_str());
            if !hit {
                kept.push(self.records[j].clone());
                proof {
                    assert(kept.deep_view() =~= prev.push(old(self)@[j as int]));
                }
            }
            proof {
                assert(old(self)@.subrange(0, j as int + 1) =~= prefix.push(
                    old(self)@[j as int],
                ));
                lemma_filter_push(
                    prefix,
                    |m: StickerModel| !ids.deep_view().contains(m.uuid),
                    old(self)@[j as int],
                );
            }
            j = j + 1;
        }
        proof {
            assert(old(self)@.subrange(0, n as int) =~= old(self)@);
        }
        self.records = kept;
        proof {
            lemma_filter_sorted(old(self)@, |m: StickerModel| !ids.deep_view().contains(m.uuid));
        }
    }

    /// Lists the live records, ordered by ascending id.
    pub fn list_live(&self) -> (r: Vec<Sticker>)
        ensures
            r.deep_view() == live_records(self@),
    {
        let n = self.records.len();
        let mut out: Vec<Sticker> = Vec::new();
        proof {
            assert(self@.subrange(0, 0) =~= Seq::<StickerModel>::empty());
            assert(out.deep_view() =~= live_records(self@.subrange(0, 0)));
        }
        let mut j: usize = 0;
        while j < n
            invariant
                j <= n,
                n == self@.len(),
                out.deep_view() == live_records(self@.subrange(0, j as int)),
            decreases n - j,
        {
            let ghost prefix = self@.subrange(0, j as int);
            let ghost prev = out.deep_view();
            if !self.records[j].archived {
                out.push(self.records[j].clone());
                proof {
                    assert(out.deep_view() =~= prev.push(self@[j as int]));
                }
            }
            proof {
                assert(self@.subrange(0, j as int + 1) =~= prefix.push(self@[j as int]));
                lemma_filter_push(prefix, |m: StickerModel| !m.archived, self@[j as int]);
            }
            j = j + 1;
        }
        proof {
            assert(self@.subrange(0, n as int) =~= self@);
        }
        out
    }

    /// Lists the archived records, ordered by ascending id.
    pub fn list_archived(&self) -> (r: Vec<Sticker>)
        ensures
            r.deep_view() == archived_records(self@),
    {
        let n = self.records.len();
        let mut out: Vec<Sticker> = Vec::new();
        proof {
            assert(self@.subrange(0, 0) =~= Seq::<StickerModel>::empty());
            assert(out.deep_view() =~= archived_records(self@.subrange(0, 0)));
        }
        let mut j: usize = 0;
        while j < n
            invariant
                j <= n,
                n == self@.len(),
                out.deep_view() == archived_records(self@.subrange(0, j as int)),
            decreases n - j,
        {
            let ghost prefix = self@.subrange(0, j as int);
            let ghost prev = out.deep_view();
            if self.records[j].archived {
                out.push(self.records[j].clone());
                proof {
                    assert(out.deep_view() =~= prev.push(self@[j as int]));
                }
            }
            proof {
                assert(self@.subrange(0, j as int + 1) =~= prefix.push(self@[j as int]));
                lemma_filter_push(prefix, |m: StickerModel| m.archived, self@[j as int]);
            }
            j = j + 1;
        }
        proof {
            assert(self@.subrange(0, n as int) =~= self@);
        }
        out
    }

    /// Un-archives the selected records as one unit and hands back the
    /// records to re-open, with their stored geometry and pin state, ordered
    /// by ascending id.
    pub fn recover(&mut self, ids: &Vec<String>) -> (reopened: Vec<Sticker>)
        requires
            old(self).wf(),
        ensures
            final(self).wf(),
            final(self)@.len() == old(self)@.len(),
            forall|j: int|
                0 <= j < old(self)@.len() ==> final(self)@[j] == (if ids.deep_view().contains(
                    (#[trigger] old(self)@[j]).uuid,
                ) {
                    set_archived(old(self)@[j], false)
                } else {
                    old(self)@[j]
                }),
            reopened.deep_view() == selected_records(final(self)@, ids.deep_view()),
    {
        self.restore(ids);
        let ghost mid = self@;
        let n = self.records.len();
        let mut out: Vec<Sticker> = Vec::new();
        proof {
            assert(mid.subrange(0, 0) =~= Seq::<StickerModel>::empty());
            assert(out.deep_view() =~= selected_records(mid.subrange(0, 0), ids.deep_view()));
        }
        let mut j: usize = 0;
        while j < n
            invariant
                j <= n,
                n == self@.len(),
                self@ == mid,
                out.deep_view() == selected_records(mid.subrange(0, j as int), ids.deep_view()),
            decreases n - j,
        {
            let ghost prefix = mid.subrange(0, j as int);
            let ghost prev = out.deep_view();
            let hit = contains_str(ids, self.records[j].uuid.as_str());
            if hit {
                out.push(self.records[j].clone());
                proof {
                    assert(out.deep_view() =~= prev.push(mid[j as int]));
                }
            }
            proof {
                assert(mid.subrange(0, j as int + 1) =~= prefix.push(mid[j as int]));
                lemma_filter_push(
                    prefix,
                    |m: StickerModel| ids.deep_view().contains(m.uuid),
                    mid[j as int],
                );
            }
            j = j + 1;
        }
        proof {
            assert(mid.subrange(0, n as int) =~= mid);
        }
        out
    }
}

} // verus!
