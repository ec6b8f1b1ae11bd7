//! The record store: an insertion-ordered collection of records with
//! create/read/update/delete operations.
//!
//! Contracts are stated over [`ItemModel`], the mathematical model of a
//! record, so that two records compare equal exactly when their visible
//! fields do.

use vstd::prelude::*;

verus! {

/// Mathematical model of one record: the value a [`TodoItem`] denotes in
/// contracts. The label is a sequence of characters, so model equality is
/// equality of the visible fields.
#[verifier::ext_equal]
pub struct ItemModel {
    pub id: u32,
    pub name: Seq<char>,
    pub done: bool,
}

/// One record of the store. Ids are assigned by the store, never by the
/// caller; `done` starts false and is only ever set to true.
pub struct TodoItem {
    pub id: u32,
    pub name: String,
    pub done: bool,
}

impl View for TodoItem {
    type V = ItemModel;

    open spec fn view(&self) -> ItemModel {
        ItemModel { id: self.id, name: self.name@, done: self.done }
    }
}

impl Clone for TodoItem {
    fn clone(&self) -> (r: Self)
        ensures
            r@ == self@,
    {
        TodoItem { id: self.id, name: self.name.clone(), done: self.done }
    }
}

/// True when some record in `s` carries the id `id`.
pub open spec fn contains_id(s: Seq<ItemModel>, id: u32) -> bool {
    exists|i: int| 0 <= i < s.len() && s[i].id == id
}

/// Position of the first record in `s` whose id is `id`; `s.len()` when
/// there is none. Operations that look a record up act on this position.
pub open spec fn find_index(s: Seq<ItemModel>, id: u32) -> int
    decreases s.len(),
{
    if s.len() == 0 {
        0
    } else if s[0].id == id {
        0
    } else {
        1 + find_index(s.drop_first(), id)
    }
}

/// `find_index` points at the first record with the sought id, and at
/// `s.len()` exactly when the id is absent.
pub proof fn lemma_find_index(s: Seq<ItemModel>, id: u32)
    ensures
        !contains_id(s, id) ==> find_index(s, id) == s.len(),
        contains_id(s, id) ==> 0 <= find_index(s, id) < s.len() && s[find_index(s, id)].id == id,
        forall|j: int| 0 <= j < find_index(s, id) ==> s[j].id != id,
    decreases s.len(),
{
    if s.len() == 0 {
    } else if s[0].id == id {
    } else {
        let t = s.drop_first();
        lemma_find_index(t, id);
        assert(forall|i: int| 0 < i < s.len() ==> s[i] == t[i - 1]);
        if contains_id(s, id) {
            let w = choose|i: int| 0 <= i < s.len() && s[i].id == id;
            assert(t[w - 1].id == id);
            assert(contains_id(t, id));
        }
        if contains_id(t, id) {
            let w = choose|i: int| 0 <= i < t.len() && t[i].id == id;
            assert(s[w + 1].id == id);
            assert(contains_id(s, id));
        }
    }
}

/// A position that holds the sought id, with no earlier one, is the
/// position `find_index` names.
pub proof fn lemma_find_index_of_first(s: Seq<ItemModel>, id: u32, i: int)
    requires
        0 <= i < s.len(),
        s[i].id == id,
        forall|j: int| 0 <= j < i ==> s[j].id != id,
    ensures
        find_index(s, id) == i,
    decreases i,
{
    if i == 0 {
    } else {
        let t = s.drop_first();
        assert(forall|k: int| 0 < k < s.len() ==> s[k] == t[k - 1]);
        lemma_find_index_of_first(t, id, i - 1);
    }
}

/// The collection after marking the first record with id `id` as done;
/// unchanged when no record carries the id. Only the `done` flag of that one
/// record moves, and only to true.
pub open spec fn spec_mark_done(s: Seq<ItemModel>, id: u32) -> Seq<ItemModel> {
    if contains_id(s, id) {
        let k = find_index(s, id);
        s.update(k, ItemModel { id: s[k].id, name: s[k].name, done: true })
    } else {
        s
    }
}

/// The collection after removing the first record with id `id`; unchanged
/// when no record carries the id. Removal keeps the relative order of the
/// remaining records.
pub open spec fn spec_delete(s: Seq<ItemModel>, id: u32) -> Seq<ItemModel> {
    if contains_id(s, id) {
        s.remove(find_index(s, id))
    } else {
        s
    }
}

/// The collection after renaming the first record with id `id`; unchanged
/// when no record carries the id. Only the label of that one record moves;
/// its id and done flag stay.
pub open spec fn spec_rename(s: Seq<ItemModel>, id: u32, name: Seq<char>) -> Seq<ItemModel> {
    if contains_id(s, id) {
        let k = find_index(s, id);
        s.update(k, ItemModel { id: s[k].id, name, done: s[k].done })
    } else {
        s
    }
}

/// The window of `s` that a page request selects: the sub-sequence from
/// position `min(offset, length)` to position `min(offset + limit, length)`,
/// in original order. Out-of-range offsets select an empty window; the
/// bounds never wrap.
pub open spec fn spec_page(s: Seq<ItemModel>, offset: u32, limit: u32) -> Seq<ItemModel> {
    let start = if offset <= s.len() {
        offset as int
    } else {
        s.len() as int
    };
    let end = if offset + limit <= s.len() {
        offset + limit
    } else {
        s.len() as int
    };
    s.subrange(start, end)
}

/// True when every record's id is its position plus one: the shape a
/// collection has when built by `add` alone.
pub open spec fn ids_dense(s: Seq<ItemModel>) -> bool {
    forall|i: int| 0 <= i < s.len() ==> s[i].id == i + 1
}

/// Law: the id that `add` assigns — the length plus one — is carried by no
/// record already present, as long as the collection keeps the dense ids
/// that adds alone produce. A delete can break the dense shape, after which
/// the length rule may reassign an id still in use; the store keeps that
/// rule deliberately, and lookups then return the earliest match.
pub proof fn lemma_add_id_fresh(s: Seq<ItemModel>)
    requires
        ids_dense(s),
        s.len() < u32::MAX,
    ensures
        !contains_id(s, (s.len() + 1) as u32),
{
    if contains_id(s, (s.len() + 1) as u32) {
        let i = choose|i: int| 0 <= i < s.len() && s[i].id == (s.len() + 1) as u32;
        assert(s[i].id == i + 1);
    }
}

/// Adding a record under the id `add` assigns keeps the ids dense.
pub proof fn lemma_add_keeps_ids_dense(s: Seq<ItemModel>, m: ItemModel)
    requires
        ids_dense(s),
        m.id == s.len() + 1,
    ensures
        ids_dense(s.push(m)),
{
}

/// Law: a page is a contiguous, order-preserving window. Its length is
/// `min(limit, max(0, length - offset))`, its k-th record is the record at
/// position `min(offset, length) + k`, and the page at offset zero whose
/// limit covers the collection is the whole collection unchanged.
pub proof fn lemma_page_shape(s: Seq<ItemModel>, offset: u32, limit: u32)
    ensures
        spec_page(s, offset, limit).len() == if s.len() <= offset {
            0int
        } else if limit <= s.len() - offset {
            limit as int
        } else {
            s.len() - offset
        },
        forall|k: int|
            0 <= k < spec_page(s, offset, limit).len() ==> spec_page(s, offset, limit)[k] == s[(
            if offset <= s.len() {
                offset as int
            } else {
                s.len() as int
            }) + k],
        offset == 0 && s.len() <= limit ==> spec_page(s, offset, limit) == s,
{
    if offset == 0 && s.len() <= limit {
        assert(spec_page(s, offset, limit) =~= s);
    }
}

/// Law: marking done is idempotent — marking the same id twice leaves the
/// collection exactly as marking it once does.
pub proof fn lemma_mark_done_idempotent(s: Seq<ItemModel>, id: u32)
    ensures
        spec_mark_done(spec_mark_done(s, id), id) == spec_mark_done(s, id),
{
    if contains_id(s, id) {
        lemma_find_index(s, id);
        let k = find_index(s, id);
        let s1 = spec_mark_done(s, id);
        assert(s1[k].id == id);
        assert(contains_id(s1, id));
        lemma_find_index_of_first(s1, id, k);
        assert(spec_mark_done(s1, id) =~= s1);
    }
}

/// The record store: an insertion-ordered collection of records, owned
/// exclusively by its holder. Order is significant because pagination works
/// by position.
pub struct TodoStore {
    pub todos: Vec<TodoItem>,
}

impl View for TodoStore {
    type V = Seq<ItemModel>;

    open spec fn view(&self) -> Seq<ItemModel> {
        self.todos@.map_values(|t: TodoItem| t@)
    }
}

impl Default for TodoStore {
    /// An empty store: the state of a first-ever startup.
    fn default() -> (s: Self)
        ensures
            s@ == Seq::<ItemModel>::empty(),
    {
        let s = TodoStore { todos: Vec::new() };
        proof {
            assert(s@ =~= Seq::<ItemModel>::empty());
        }
        s
    }
}

impl TodoStore {
    /// Creates an empty store.
    pub fn new() -> (s: Self)
        ensures
            s@ == Seq::<ItemModel>::empty(),
    {
        let s = TodoStore { todos: Vec::new() };
        proof {
            assert(s@ =~= Seq::<ItemModel>::empty());
        }
        s
    }

    /// Appends a new record with the given label, not yet done, under the id
    /// `length + 1`, and returns that id. The length bound is forced by the
    /// 32-bit id width.
    pub fn add(&mut self, name: String) -> (id: u32)
        requires
            old(self)@.len() < u32::MAX,
        ensures
            id == old(self)@.len() + 1,
            final(self)@ == old(self)@.push(ItemModel { id, name: name@, done: false }),
    {
        let id = (self.todos.len() as u32) + 1;
        let ghost prev = self@;
        self.todos.push(TodoItem { id, name, done: false });
        proof {
            assert(self@ =~= prev.push(ItemModel { id, name: name@, done: false }));
        }
        id
    }

    /// Position of the first record with the given id, if any.
    fn position_of(&self, id: u32) -> (r: Option<usize>)
        ensures
            r matches Some(i) ==> contains_id(self@, id) && i == find_index(self@, id) && i
                < self@.len() && self@[i as int].id == id,
            r is None ==> !contains_id(self@, id),
    {
        let n = self.todos.len();
        let mut i: usize = 0;
        while i < n
            invariant
                n == self.todos.len(),
                0 <= i <= n,
                forall|j: int| 0 <= j < i ==> self@[j].id != id,
            decreases n - i,
        {
            if self.todos[i].id == id {
                proof {
                    assert(self@[i as int] == self.todos@[i as int]@);
                    lemma_find_index_of_first(self@, id, i as int);
                }
                return Some(i);
            }
            i = i + 1;
        }
        proof {
            lemma_find_index(self@, id);
        }
        None
    }

    /// Looks a record up by id: a clone of the first record carrying the id,
    /// or `None` exactly when no record carries it. Absence is a normal
    /// outcome, not an error.
    pub fn get_by_id(&self, id: u32) -> (r: Option<TodoItem>)
        ensures
            r matches Some(t) ==> contains_id(self@, id) && t@ == self@[find_index(self@, id)],
            r is None ==> !contains_id(self@, id),
    {
        match self.position_of(id) {
            Some(i) => Some(self.todos[i].clone()),
            None => None,
        }
    }

    /// Returns the page of records selected by `offset` and `limit`:
    /// clones of the records from position `min(offset, length)` up to
    /// position `min(offset + limit, length)`, in original order. Never
    /// errors: out-of-range offsets yield an empty page, and the end bound
    /// is computed widened so it cannot wrap.
    pub fn get(&self, offset: u32, limit: u32) -> (r: Vec<TodoItem>)
        ensures
            r@.map_values(|t: TodoItem| t@) == spec_page(self@, offset, limit),
    {
        let total = self.todos.len();
        let start: usize = if (offset as usize) <= total {
            offset as usize
        } else {
            total
        };
        let wide_end: u64 = offset as u64 + limit as u64;
        let end: usize = if wide_end <= total as u64 {
            wide_end as usize
        } else {
            total
        };
        let mut out: Vec<TodoItem> = Vec::new();
        let mut i: usize = start;
        while i < end
            invariant
                start <= i <= end <= self.todos@.len(),
                out@.len() == i - start,
                forall|k: int| 0 <= k < out@.len() ==> out@[k]@ == self@[start + k],
            decreases end - i,
        {
            let item = self.todos[i].clone();
            proof {
                assert(self@[i as int] == self.todos@[i as int]@);
            }
            out.push(item);
            i = i + 1;
        }
        proof {
            let ghost page = spec_page(self@, offset, limit);
            assert forall|k: int| 0 <= k < out@.len() implies out@.map_values(|t: TodoItem| t@)[k]
                == page[k] by {
                assert(out@.map_values(|t: TodoItem| t@)[k] == out@[k]@);
            }
            assert(out@.map_values(|t: TodoItem| t@) =~= page);
        }
        out
    }

    /// Marks the first record with the given id as done and reports whether
    /// one was found; a missing id mutates nothing. Marking an already-done
    /// record succeeds again: the operation is idempotent.
    pub fn mark_done(&mut self, id: u32) -> (r: bool)
        ensures
            r == contains_id(old(self)@, id),
            final(self)@ == spec_mark_done(old(self)@, id),
    {
        match self.position_of(id) {
            Some(i) => {
                let ghost prev = self@;
                let item = &mut self.todos[i];
                item.done = true;
                proof {
                    assert(self@ =~= spec_mark_done(prev, id));
                }
                true
            },
            None => false,
        }
    }

    /// Removes the first record with the given id and reports whether one
    /// was found; a missing id leaves the collection unchanged. The
    /// remaining records keep their relative order.
    pub fn delete(&mut self, id: u32) -> (r: bool)
        ensures
            r == contains_id(old(self)@, id),
            final(self)@ == spec_delete(old(self)@, id),
    {
        match self.position_of(id) {
            Some(i) => {
                let ghost prev = self@;
                self.todos.remove(i);
                proof {
                    assert(self@ =~= spec_delete(prev, id));
                }
                true
            },
            None => false,
        }
    }

    /// Replaces the label of the first record with the given id and reports
    /// whether one was found; the record's id and done flag are untouched,
    /// and a missing id mutates nothing.
    pub fn update(&mut self, id: u32, new_name: String) -> (r: bool)
        ensures
            r == contains_id(old(self)@, id),
            final(self)@ == spec_rename(old(self)@, id, new_name@),
    {
        match self.position_of(id) {
            Some(i) => {
                let ghost prev = self@;
                let item = &mut self.todos[i];
                item.name = new_name;
                proof {
                    assert(self@ =~= spec_rename(prev, id, new_name@));
                }
                true
            },
            None => false,
        }
    }
}

} // verus!
