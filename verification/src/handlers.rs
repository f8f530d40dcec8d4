//! The request handlers over the persistent store: `create`, `get`,
//! `update`, `delete` and `fetch_all`, composed from the record codec, the
//! store and the access guard.
//!
//! The store of items is abstracted as a sequence of key-item entries in
//! ascending key order; every handler's contract is stated over that view.

use vstd::prelude::*;
use crate::TodoError;
use crate::codec::{MAX_RECORD_SIZE, decode, encode, encoded_len, lemma_decode_encode_round_trip,
    spec_decode};
use crate::item::{Item, ItemV};
use crate::ordered::{entries_sorted, find_entry, has_key, lemma_find_membership, lemma_map_find,
    lemma_map_insert, lemma_map_remove, lemma_seq_insert, lemma_seq_remove, mapped, seq_insert,
    seq_remove};
use crate::principal::Principal;
use crate::store::{Store, contents};

verus! {

/// The caller's identity for one request, as the hosting environment
/// supplies it.
pub struct AuthContext {
    pub caller: Principal,
}

/// One page of a caller's items, and whether more data may exist beyond it.
///
/// `has_next_page` is always reported `true`: the flag is a deliberate
/// simplification, not a computed value, and clients must not rely on it to
/// detect the end of the data.
pub struct Page {
    pub items: Vec<Item>,
    pub has_next_page: bool,
}

/// The access guard: a caller may mutate an item exactly when it equals the
/// item's recorded owner.
pub fn may_mutate(caller: &Principal, item: &Item) -> (r: bool)
    ensures
        r == (item@.owner == caller@),
{
    item.owner.equals(caller)
}

/// The item a stored byte record stands for.
pub open spec fn decoded_value(b: Seq<u8>) -> ItemV {
    spec_decode(b)->0
}

/// [`decoded_value`] as a function value, for mapping a whole store.
pub open spec fn decode_fn() -> spec_fn(Seq<u8>) -> ItemV {
    |b: Seq<u8>| decoded_value(b)
}

/// Every stored record decodes to an item.
pub open spec fn all_valid(c: Seq<(u64, Seq<u8>)>) -> bool {
    forall|i: int| 0 <= i < c.len() ==> spec_decode((#[trigger] c[i]).1) is Some
}

/// The items a byte-level store stands for, entry by entry.
pub open spec fn view_of(c: Seq<(u64, Seq<u8>)>) -> Seq<(u64, ItemV)> {
    mapped(c, decode_fn())
}

/// The views of a sequence of items, element by element.
pub open spec fn views_of(s: Seq<Item>) -> Seq<ItemV> {
    Seq::new(s.len(), |i: int| s[i]@)
}

/// The items of `v` owned by `owner`, in store order.
pub open spec fn owned_of(v: Seq<(u64, ItemV)>, owner: Seq<u8>) -> Seq<ItemV>
    decreases v.len(),
{
    if v.len() == 0 {
        Seq::empty()
    } else if v.last().1.owner == owner {
        owned_of(v.drop_last(), owner).push(v.last().1)
    } else {
        owned_of(v.drop_last(), owner)
    }
}

/// The window of `s` that skips the first `skip` elements and takes up to
/// `count` of the rest.
pub open spec fn page_of(s: Seq<ItemV>, skip: int, count: int) -> Seq<ItemV> {
    if skip >= s.len() {
        Seq::empty()
    } else if skip + count <= s.len() {
        s.subrange(skip, skip + count)
    } else {
        s.subrange(skip, s.len() as int)
    }
}

/// Every item of an owner-filtered view belongs to that owner.
pub proof fn lemma_owned_of_owners(v: Seq<(u64, ItemV)>, owner: Seq<u8>)
    ensures
        forall|i: int|
            0 <= i < owned_of(v, owner).len() ==> (#[trigger] owned_of(v, owner)[i]).owner
                == owner,
    decreases v.len(),
{
    if v.len() > 0 {
        lemma_owned_of_owners(v.drop_last(), owner);
        let prefix = owned_of(v.drop_last(), owner);
        assert forall|i: int|
            0 <= i < owned_of(v, owner).len() implies (#[trigger] owned_of(v, owner)[i]).owner
            == owner by {
            if v.last().1.owner == owner {
                assert(owned_of(v, owner) == prefix.push(v.last().1));
                if i < prefix.len() {
                    assert(owned_of(v, owner)[i] == prefix[i]);
                }
            } else {
                assert(owned_of(v, owner) == prefix);
            }
        }
    }
}

/// The store of items, keyed by a caller-chosen 64-bit identifier, with the
/// request handlers as its methods.
pub struct TodoStore {
    store: Store,
}

impl View for TodoStore {
    type V = Seq<(u64, ItemV)>;

    /// The entries of the store in ascending key order, decoded.
    closed spec fn view(&self) -> Seq<(u64, ItemV)> {
        view_of(contents(self.store))
    }
}

impl TodoStore {
    /// The store's entries are in ascending key order and every stored
    /// record decodes.
    pub closed spec fn wf(&self) -> bool {
        entries_sorted(contents(self.store)) && all_valid(contents(self.store))
    }

    /// The view of a well-formed store is itself sorted by key.
    pub proof fn lemma_view_sorted(&self)
        requires
            self.wf(),
        ensures
            entries_sorted(self@),
    {
    }

    /// A fresh, empty store.
    pub fn new() -> (s: TodoStore)
        ensures
            s.wf(),
            s@ == Seq::<(u64, ItemV)>::empty(),
    {
        let store = Store::new();
        proof {
            assert(view_of(contents(store)) =~= Seq::<(u64, ItemV)>::empty());
        }
        TodoStore { store }
    }

    /// Opens the store persisted in the durable region, as the process
    /// start does, validating every record found there: a record that does
    /// not decode surfaces as the codec error and aborts the load, so a
    /// store that loads is well formed.
    pub fn load() -> (r: Result<TodoStore, TodoError>)
        ensures
            match r {
                Ok(s) => s.wf(),
                Err(e) => e == TodoError::Codec,
            },
    {
        let store = Store::init();
        let entries = store.entries();
        let ghost c = contents(store);
        let n = entries.len();
        for idx in 0..n
            invariant
                c == contents(store),
                entries_sorted(c),
                n == entries@.len(),
                entries@.len() == c.len(),
                forall|i: int|
                    0 <= i < entries@.len() ==> (#[trigger] entries@[i]).0 == c[i].0
                        && entries@[i].1@ == c[i].1,
                forall|i: int| 0 <= i < idx ==> spec_decode((#[trigger] c[i]).1) is Some,
        {
            let pair = &entries[idx];
            match decode(&pair.1) {
                Ok(_) => {},
                Err(e) => {
                    return Err(e);
                },
            }
        }
        Ok(TodoStore { store })
    }

    /// Returns the item at `key`, whoever owns it: read access is not
    /// owner-restricted, only mutation is. A returned item always fits the
    /// record bound: that is the store's invariant, surfaced here.
    pub fn get(&self, key: u64) -> (r: Option<Item>)
        requires
            self.wf(),
        ensures
            match r {
                Some(item) => find_entry(self@, key) == Some(item@) && item.wf()
                    && encoded_len(item@) <= MAX_RECORD_SIZE,
                None => !has_key(self@, key),
            },
    {
        proof {
            lemma_map_find(contents(self.store), key, decode_fn());
            lemma_find_membership(contents(self.store), key);
        }
        match self.store.get(key) {
            Some(bytes) => {
                proof {
                    let c = contents(self.store);
                    let w = choose|w: int| 0 <= w < c.len() && c[w] == (key, bytes@);
                    assert(spec_decode(c[w].1) is Some);
                }
                match decode(&bytes) {
                    Ok(item) => {
                        proof {
                            lemma_decode_encode_round_trip(bytes@);
                        }
                        Some(item)
                    },
                    Err(_) => {
                        proof {
                            assert(false);
                        }
                        None
                    },
                }
            },
            None => None,
        }
    }

    /// Inserts a fresh item under `key`, owned by the caller; rejects a key
    /// already in use, and a record too large to encode.
    pub fn create(&mut self, auth: &AuthContext, key: u64, content: String) -> (r: Result<
        (),
        TodoError,
    >)
        requires
            old(self).wf(),
            auth.caller.wf(),
        ensures
            final(self).wf(),
            ({
                let item = ItemV { owner: auth.caller@, content: content@ };
                match r {
                    Ok(()) => {
                        &&& !has_key(old(self)@, key)
                        &&& encoded_len(item) <= MAX_RECORD_SIZE
                        &&& final(self)@ == seq_insert(old(self)@, key, item)
                    },
                    Err(TodoError::DuplicateKey) => has_key(old(self)@, key) && final(self)@
                        == old(self)@,
                    Err(TodoError::Codec) => {
                        &&& !has_key(old(self)@, key)
                        &&& encoded_len(item) > MAX_RECORD_SIZE
                        &&& final(self)@ == old(self)@
                    },
                    _ => false,
                }
            }),
    {
        proof {
            lemma_map_find(contents(self.store), key, decode_fn());
        }
        if self.store.contains_key(key) {
            return Err(TodoError::DuplicateKey);
        }
        let item = Item::new(auth.caller.clone(), content);
        match encode(&item) {
            Ok(bytes) => {
                let ghost c_old = contents(self.store);
                proof {
                    lemma_seq_insert(c_old, key, bytes@);
                    lemma_map_insert(c_old, key, bytes@, decode_fn());
                }
                self.store.insert(key, bytes);
                proof {
                    let c_new = contents(self.store);
                    assert forall|i: int|
                        0 <= i < c_new.len() implies spec_decode((#[trigger] c_new[i]).1)
                        is Some by {
                        if c_new[i] != (key, bytes@) {
                            assert(c_old.contains(c_new[i]));
                            let w = choose|w: int| 0 <= w < c_old.len() && c_old[w] == c_new[i];
                            assert(spec_decode(c_old[w].1) is Some);
                        }
                    }
                }
                Ok(())
            },
            Err(e) => Err(e),
        }
    }

    /// Replaces the item at `key` with one carrying the caller's identity
    /// and the new content; only the recorded owner may do so, and an
    /// absent key is reported the same way as a foreign one.
    pub fn update(&mut self, auth: &AuthContext, key: u64, content: String) -> (r: Result<
        (),
        TodoError,
    >)
        requires
            old(self).wf(),
            auth.caller.wf(),
        ensures
            final(self).wf(),
            ({
                let item = ItemV { owner: auth.caller@, content: content@ };
                match r {
                    Ok(()) => {
                        &&& match find_entry(old(self)@, key) {
                            Some(prev) => prev.owner == auth.caller@,
                            None => false,
                        }
                        &&& encoded_len(item) <= MAX_RECORD_SIZE
                        &&& final(self)@ == seq_insert(old(self)@, key, item)
                    },
                    Err(TodoError::NotOwner) => {
                        &&& match find_entry(old(self)@, key) {
                            Some(prev) => prev.owner != auth.caller@,
                            None => true,
                        }
                        &&& final(self)@ == old(self)@
                    },
                    Err(TodoError::Codec) => {
                        &&& match find_entry(old(self)@, key) {
                            Some(prev) => prev.owner == auth.caller@,
                            None => false,
                        }
                        &&& encoded_len(item) > MAX_RECORD_SIZE
                        &&& final(self)@ == old(self)@
                    },
                    _ => false,
                }
            }),
    {
        proof {
            lemma_map_find(contents(self.store), key, decode_fn());
            lemma_find_membership(contents(self.store), key);
        }
        let prev = match self.store.get(key) {
            Some(bytes) => {
                proof {
                    let c = contents(self.store);
                    let w = choose|w: int| 0 <= w < c.len() && c[w] == (key, bytes@);
                    assert(spec_decode(c[w].1) is Some);
                }
                match decode(&bytes) {
                    Ok(item) => item,
                    Err(_) => {
                        proof {
                            assert(false);
                        }
                        return Err(TodoError::NotOwner);
                    },
                }
            },
            None => {
                return Err(TodoError::NotOwner);
            },
        };
        if !may_mutate(&auth.caller, &prev) {
            return Err(TodoError::NotOwner);
        }
        let item = Item::new(auth.caller.clone(), content);
        match encode(&item) {
            Ok(bytes) => {
                let ghost c_old = contents(self.store);
                proof {
                    lemma_seq_insert(c_old, key, bytes@);
                    lemma_map_insert(c_old, key, bytes@, decode_fn());
                }
                self.store.insert(key, bytes);
                proof {
                    let c_new = contents(self.store);
                    assert forall|i: int|
                        0 <= i < c_new.len() implies spec_decode((#[trigger] c_new[i]).1)
                        is Some by {
                        if c_new[i] != (key, bytes@) {
                            assert(c_old.contains(c_new[i]));
                            let w = choose|w: int| 0 <= w < c_old.len() && c_old[w] == c_new[i];
                            assert(spec_decode(c_old[w].1) is Some);
                        }
                    }
                }
                Ok(())
            },
            Err(e) => Err(e),
        }
    }

    /// Removes the item at `key`; only the recorded owner may do so, and an
    /// absent key is reported the same way as a foreign one.
    pub fn delete(&mut self, auth: &AuthContext, key: u64) -> (r: Result<(), TodoError>)
        requires
            old(self).wf(),
            auth.caller.wf(),
        ensures
            final(self).wf(),
            match r {
                Ok(()) => {
                    &&& match find_entry(old(self)@, key) {
                        Some(prev) => prev.owner == auth.caller@,
                        None => false,
                    }
                    &&& final(self)@ == seq_remove(old(self)@, key)
                },
                Err(TodoError::NotOwner) => {
                    &&& match find_entry(old(self)@, key) {
                        Some(prev) => prev.owner != auth.caller@,
                        None => true,
                    }
                    &&& final(self)@ == old(self)@
                },
                _ => false,
            },
    {
        proof {
            lemma_map_find(contents(self.store), key, decode_fn());
            lemma_find_membership(contents(self.store), key);
        }
        let prev = match self.store.get(key) {
            Some(bytes) => {
                proof {
                    let c = contents(self.store);
                    let w = choose|w: int| 0 <= w < c.len() && c[w] == (key, bytes@);
                    assert(spec_decode(c[w].1) is Some);
                }
                match decode(&bytes) {
                    Ok(item) => item,
                    Err(_) => {
                        proof {
                            assert(false);
                        }
                        return Err(TodoError::NotOwner);
                    },
                }
            },
            None => {
                return Err(TodoError::NotOwner);
            },
        };
        if !may_mutate(&auth.caller, &prev) {
            return Err(TodoError::NotOwner);
        }
        let ghost c_old = contents(self.store);
        proof {
            lemma_seq_remove(c_old, key);
            lemma_map_remove(c_old, key, decode_fn());
        }
        self.store.remove(key);
        proof {
            let c_new = contents(self.store);
            assert forall|i: int|
                0 <= i < c_new.len() implies spec_decode((#[trigger] c_new[i]).1) is Some by {
                assert(c_old.contains(c_new[i]));
                let w = choose|w: int| 0 <= w < c_old.len() && c_old[w] == c_new[i];
                assert(spec_decode(c_old[w].1) is Some);
            }
        }
        Ok(())
    }

    /// Returns the `page_number`-th page (counted from one, `page_size`
    /// items to a page) of the caller's own items, in ascending key order.
    /// A page number of zero is rejected rather than left to wrap.
    pub fn fetch_all(&self, auth: &AuthContext, page_number: usize, page_size: usize) -> (r:
        Result<Page, TodoError>)
        requires
            self.wf(),
        ensures
            match r {
                Ok(page) => {
                    &&& page_number >= 1
                    &&& views_of(page.items@) == page_of(
                        owned_of(self@, auth.caller@),
                        (page_number as int - 1) * (page_size as int),
                        page_size as int,
                    )
                    &&& page.has_next_page == true
                    &&& forall|i: int|
                        0 <= i < page.items@.len() ==> (#[trigger] page.items@[i])@.owner
                            == auth.caller@
                },
                Err(e) => e == TodoError::InvalidArgument && page_number == 0,
            },
    {
        if page_number < 1 {
            return Err(TodoError::InvalidArgument);
        }
        let ghost v = self@;
        let ghost owner = auth.caller@;
        let ghost skip = (page_number as int - 1) * (page_size as int);
        let skip_opt = (page_number - 1).checked_mul(page_size);
        let entries = self.store.entries();
        let ghost c = contents(self.store);
        let mut items: Vec<Item> = Vec::new();
        let mut matched: usize = 0;
        let n = entries.len();
        for idx in 0..n
            invariant
                self.wf(),
                v == self@,
                owner == auth.caller@,
                page_number >= 1,
                skip == (page_number as int - 1) * (page_size as int),
                skip_opt == if skip > usize::MAX {
                    Option::<usize>::None
                } else {
                    Option::<usize>::Some(skip as usize)
                },
                n == entries@.len(),
                c == contents(self.store),
                entries@.len() == c.len(),
                forall|i: int|
                    0 <= i < entries@.len() ==> (#[trigger] entries@[i]).0 == c[i].0
                        && entries@[i].1@ == c[i].1,
                matched == owned_of(v.take(idx as int), owner).len(),
                matched <= idx,
                views_of(items@) == page_of(
                    owned_of(v.take(idx as int), owner),
                    skip,
                    page_size as int,
                ),
                forall|i: int|
                    0 <= i < items@.len() ==> (#[trigger] items@[i])@.owner == owner,
                items@.len() <= page_size,
        {
            let pair = &entries[idx];
            proof {
                assert(c[idx as int].1 == pair.1@);
                assert(spec_decode(pair.1@) is Some);
            }
            let item = match decode(&pair.1) {
                Ok(it) => it,
                Err(_) => {
                    proof {
                        assert(false);
                    }
                    return Err(TodoError::InvalidArgument);
                },
            };
            proof {
                assert(v[idx as int] == (c[idx as int].0, decoded_value(c[idx as int].1)));
                assert(v[idx as int].1 == item@);
                assert(v.take(idx as int + 1).drop_last() =~= v.take(idx as int));
                assert(v.take(idx as int + 1).last() == v[idx as int]);
            }
            let ghost full_prev = owned_of(v.take(idx as int), owner);
            let ghost full_next = owned_of(v.take(idx as int + 1), owner);
            if item.owner.equals(&auth.caller) {
                proof {
                    assert(full_next == full_prev.push(item@));
                }
                let should_take = match skip_opt {
                    Some(s) => matched >= s && items.len() < page_size,
                    None => false,
                };
                if should_take {
                    proof {
                        lemma_page_push_inside(full_prev, item@, skip, page_size as int);
                        assert(views_of(items@.push(item)) =~= views_of(items@).push(item@));
                    }
                    items.push(item);
                } else {
                    proof {
                        lemma_page_push_outside(
                            full_prev,
                            item@,
                            skip,
                            page_size as int,
                            views_of(items@).len() as int,
                        );
                    }
                }
                matched = matched + 1;
            } else {
                proof {
                    assert(full_next == full_prev);
                }
            }
        }
        proof {
            assert(v.take(n as int) =~= v);
        }
        Ok(Page { items, has_next_page: true })
    }
}

/// Appending an element that falls inside the window extends the page by
/// that element.
proof fn lemma_page_push_inside(s: Seq<ItemV>, x: ItemV, skip: int, count: int)
    requires
        0 <= skip,
        skip <= s.len(),
        page_of(s, skip, count).len() < count,
    ensures
        page_of(s.push(x), skip, count) == page_of(s, skip, count).push(x),
{
    let t = s.push(x);
    if skip == s.len() {
        assert(page_of(s, skip, count) =~= Seq::<ItemV>::empty());
        assert(page_of(t, skip, count) =~= Seq::<ItemV>::empty().push(x));
    } else {
        assert(page_of(t, skip, count) =~= page_of(s, skip, count).push(x));
    }
}

/// Appending an element that falls outside the window leaves the page as it
/// was: either the window starts beyond the new length, or the page is
/// already full.
proof fn lemma_page_push_outside(s: Seq<ItemV>, x: ItemV, skip: int, count: int, have: int)
    requires
        0 <= skip,
        0 <= count,
        have == page_of(s, skip, count).len(),
        s.len() + 1 <= skip || have >= count,
    ensures
        page_of(s.push(x), skip, count) == page_of(s, skip, count),
{
    let t = s.push(x);
    if s.len() + 1 <= skip {
        assert(page_of(t, skip, count) =~= page_of(s, skip, count));
    } else {
        assert(page_of(t, skip, count) =~= page_of(s, skip, count));
    }
}

/// Law: after a create on an absent key, a get of that key returns the item
/// just created, the key is now present, and every other key holds what it
/// did before.
pub proof fn lemma_create_then_get(v: Seq<(u64, ItemV)>, key: u64, item: ItemV)
    requires
        entries_sorted(v),
    ensures
        find_entry(seq_insert(v, key, item), key) == Some(item),
        has_key(seq_insert(v, key, item), key),
        forall|k2: u64|
            k2 != key ==> find_entry(seq_insert(v, key, item), k2) == find_entry(v, k2),
{
    lemma_seq_insert(v, key, item);
}

/// Law: a page of a caller's items holds only items that caller owns,
/// whatever the page bounds.
pub proof fn lemma_page_owners(v: Seq<(u64, ItemV)>, owner: Seq<u8>, skip: int, count: int)
    requires
        0 <= skip,
        0 <= count,
    ensures
        forall|i: int|
            0 <= i < page_of(owned_of(v, owner), skip, count).len() ==> (#[trigger] page_of(
                owned_of(v, owner),
                skip,
                count,
            )[i]).owner == owner,
{
    lemma_owned_of_owners(v, owner);
    let s = owned_of(v, owner);
    let p = page_of(s, skip, count);
    assert forall|i: int| 0 <= i < p.len() implies (#[trigger] p[i]).owner == owner by {
        if skip >= s.len() {
        } else {
            assert(p[i] == s[skip + i]);
        }
    }
}

} // verus!
