//! A model of an ordered key-value association: a sequence of entries with
//! strictly increasing `u64` keys, together with lookup, insertion and
//! removal, and the lemmas that relate them.

use vstd::prelude::*;

verus! {

/// The keys of `s` are strictly increasing, so each key occurs at most once.
pub open spec fn entries_sorted<V>(s: Seq<(u64, V)>) -> bool {
    forall|i: int, j: int| 0 <= i < j < s.len() ==> s[i].0 < s[j].0
}

/// The value at `key`, scanning from the front: `None` if no entry has it.
pub open spec fn find_entry<V>(s: Seq<(u64, V)>, key: u64) -> Option<V>
    decreases s.len(),
{
    if s.len() == 0 {
        None
    } else if s[0].0 == key {
        Some(s[0].1)
    } else {
        find_entry(s.drop_first(), key)
    }
}

/// Some entry of `s` has key `key`.
pub open spec fn has_key<V>(s: Seq<(u64, V)>, key: u64) -> bool {
    find_entry(s, key) is Some
}

/// `s` with `(key, value)` inserted at its ordered position; an entry that
/// already has `key` is replaced.
pub open spec fn seq_insert<V>(s: Seq<(u64, V)>, key: u64, value: V) -> Seq<(u64, V)>
    decreases s.len(),
{
    if s.len() == 0 {
        seq![(key, value)]
    } else if s[0].0 < key {
        seq![s[0]] + seq_insert(s.drop_first(), key, value)
    } else if s[0].0 == key {
        seq![(key, value)] + s.drop_first()
    } else {
        seq![(key, value)] + s
    }
}

/// `s` with the entry at `key` removed, if one is there.
pub open spec fn seq_remove<V>(s: Seq<(u64, V)>, key: u64) -> Seq<(u64, V)>
    decreases s.len(),
{
    if s.len() == 0 {
        s
    } else if s[0].0 == key {
        s.drop_first()
    } else {
        seq![s[0]] + seq_remove(s.drop_first(), key)
    }
}

/// What `seq_insert` does to a sorted sequence: the order is kept, the new
/// key maps to the new value, every other key maps to what it did, and every
/// entry of the result is the new one or one of `s`.
pub proof fn lemma_seq_insert<V>(s: Seq<(u64, V)>, key: u64, value: V)
    requires
        entries_sorted(s),
    ensures
        entries_sorted(seq_insert(s, key, value)),
        find_entry(seq_insert(s, key, value), key) == Some(value),
        forall|k2: u64|
            k2 != key ==> find_entry(seq_insert(s, key, value), k2) == find_entry(s, k2),
        seq_insert(s, key, value).len() == s.len() + (if has_key(s, key) {
            0int
        } else {
            1int
        }),
        forall|i: int|
            0 <= i < seq_insert(s, key, value).len() ==> (#[trigger] seq_insert(s, key, value)[i])
                == (key, value) || s.contains(seq_insert(s, key, value)[i]),
    decreases s.len(),
{
    let r = seq_insert(s, key, value);
    if s.len() == 0 {
        assert forall|k2: u64| k2 != key implies find_entry(r, k2) == find_entry(s, k2) by {
            assert(r.drop_first() =~= s);
        }
    } else if s[0].0 < key {
        let rest = s.drop_first();
        assert(entries_sorted(rest));
        lemma_seq_insert(rest, key, value);
        let ri = seq_insert(rest, key, value);
        assert(r == seq![s[0]] + ri);
        assert(r.drop_first() =~= ri);
        // every entry of `ri` is the new pair or one of `rest`, and both have
        // keys above s[0].0, so prepending s[0] keeps the order
        assert forall|i: int, j: int| 0 <= i < j < r.len() implies r[i].0 < r[j].0 by {
            if i == 0 {
                let e = r[j];
                assert(e == ri[j - 1]);
                if e == (key, value) {
                } else {
                    assert(rest.contains(e));
                    let w = choose|w: int| 0 <= w < rest.len() && rest[w] == e;
                    assert(s[w + 1] == e);
                }
            } else {
                assert(r[i] == ri[i - 1] && r[j] == ri[j - 1]);
            }
        }
        assert forall|i: int| 0 <= i < r.len() implies (#[trigger] r[i]) == (key, value)
            || s.contains(r[i]) by {
            if i == 0 {
                assert(s[0] == r[0]);
            } else {
                assert(r[i] == ri[i - 1]);
                if ri[i - 1] == (key, value) {
                } else {
                    assert(rest.contains(ri[i - 1]));
                    let w = choose|w: int| 0 <= w < rest.len() && rest[w] == ri[i - 1];
                    assert(s[w + 1] == r[i]);
                }
            }
        }
        assert forall|k2: u64| k2 != key implies find_entry(r, k2) == find_entry(s, k2) by {
            assert(find_entry(r, k2) == if r[0].0 == k2 {
                Some(r[0].1)
            } else {
                find_entry(ri, k2)
            });
            assert(find_entry(s, k2) == if s[0].0 == k2 {
                Some(s[0].1)
            } else {
                find_entry(rest, k2)
            });
        }
        assert(find_entry(r, key) == find_entry(ri, key));
    } else if s[0].0 == key {
        let rest = s.drop_first();
        assert(r == seq![(key, value)] + rest);
        assert(r.drop_first() =~= rest);
        // keys in `rest` are those of s at positions >= 1, all above `key`
        assert forall|i: int, j: int| 0 <= i < j < r.len() implies r[i].0 < r[j].0 by {
            if i == 0 {
                assert(r[j] == s[j]);
            } else {
                assert(r[i] == s[i] && r[j] == s[j]);
            }
        }
        assert forall|k2: u64| k2 != key implies find_entry(r, k2) == find_entry(s, k2) by {
            assert(find_entry(r, k2) == find_entry(rest, k2));
            assert(find_entry(s, k2) == find_entry(rest, k2));
        }
        assert forall|i: int| 0 <= i < r.len() implies (#[trigger] r[i]) == (key, value)
            || s.contains(r[i]) by {
            if i > 0 {
                assert(s[i] == r[i]);
            }
        }
    } else {
        assert(r == seq![(key, value)] + s);
        assert(r.drop_first() =~= s);
        assert forall|i: int, j: int| 0 <= i < j < r.len() implies r[i].0 < r[j].0 by {
            if i == 0 {
                assert(r[j] == s[j - 1]);
                if j > 1 {
                    assert(s[0].0 < s[j - 1].0);
                }
            } else {
                assert(r[i] == s[i - 1] && r[j] == s[j - 1]);
            }
        }
        assert forall|k2: u64| k2 != key implies find_entry(r, k2) == find_entry(s, k2) by {
            assert(find_entry(r, k2) == find_entry(s, k2));
        }
        assert forall|i: int| 0 <= i < r.len() implies (#[trigger] r[i]) == (key, value)
            || s.contains(r[i]) by {
            if i > 0 {
                assert(s[i - 1] == r[i]);
            }
        }
        // `key` is below every key of s, so it is absent from s
        lemma_absent_key(s, key);
    }
}

/// `s` with every value sent through `g`; the keys and their order stay.
pub open spec fn mapped<A, B>(s: Seq<(u64, A)>, g: spec_fn(A) -> B) -> Seq<(u64, B)> {
    Seq::new(s.len(), |i: int| (s[i].0, g(s[i].1)))
}

/// A found value is the value of some entry of the sequence.
pub proof fn lemma_find_membership<V>(s: Seq<(u64, V)>, key: u64)
    ensures
        match find_entry(s, key) {
            Some(v) => exists|i: int| 0 <= i < s.len() && s[i] == (key, v),
            None => true,
        },
    decreases s.len(),
{
    if s.len() == 0 {
    } else if s[0].0 == key {
        assert(s[0] == (key, s[0].1));
    } else {
        let rest = s.drop_first();
        lemma_find_membership(rest, key);
        match find_entry(s, key) {
            Some(v) => {
                let w = choose|w: int| 0 <= w < rest.len() && rest[w] == (key, v);
                assert(s[w + 1] == (key, v));
            },
            None => {},
        }
    }
}

/// Lookup commutes with mapping the values.
pub proof fn lemma_map_find<A, B>(s: Seq<(u64, A)>, key: u64, g: spec_fn(A) -> B)
    ensures
        match find_entry(s, key) {
            Some(v) => find_entry(mapped(s, g), key) == Some(g(v)),
            None => find_entry(mapped(s, g), key) is None,
        },
    decreases s.len(),
{
    if s.len() == 0 {
    } else {
        assert(mapped(s, g).drop_first() =~= mapped(s.drop_first(), g));
        if s[0].0 != key {
            lemma_map_find(s.drop_first(), key, g);
        }
    }
}

/// Insertion commutes with mapping the values.
pub proof fn lemma_map_insert<A, B>(s: Seq<(u64, A)>, key: u64, value: A, g: spec_fn(A) -> B)
    ensures
        mapped(seq_insert(s, key, value), g) == seq_insert(mapped(s, g), key, g(value)),
    decreases s.len(),
{
    let m = mapped(s, g);
    let lhs = mapped(seq_insert(s, key, value), g);
    let rhs = seq_insert(m, key, g(value));
    if s.len() == 0 {
        assert(lhs =~= rhs);
    } else if s[0].0 < key {
        let rest = s.drop_first();
        lemma_map_insert(rest, key, value, g);
        assert(mapped(rest, g) =~= m.drop_first());
        let x = seq_insert(rest, key, value);
        assert(seq_insert(s, key, value) == seq![s[0]] + x);
        assert(rhs == seq![m[0]] + seq_insert(m.drop_first(), key, g(value)));
        assert forall|i: int| 0 <= i < lhs.len() implies lhs[i] == rhs[i] by {
            if i == 0 {
                assert((seq![s[0]] + x)[0] == s[0]);
            } else {
                assert((seq![s[0]] + x)[i] == x[i - 1]);
                assert(lhs[i] == mapped(x, g)[i - 1]);
            }
        }
        assert(lhs =~= rhs);
    } else if s[0].0 == key {
        let rest = s.drop_first();
        assert(seq_insert(s, key, value) == seq![(key, value)] + rest);
        assert(rhs == seq![(key, g(value))] + m.drop_first());
        assert forall|i: int| 0 <= i < lhs.len() implies lhs[i] == rhs[i] by {
            if i == 0 {
                assert((seq![(key, value)] + rest)[0] == (key, value));
            } else {
                assert((seq![(key, value)] + rest)[i] == rest[i - 1]);
                assert(rest[i - 1] == s[i]);
            }
        }
        assert(lhs =~= rhs);
    } else {
        assert(seq_insert(s, key, value) == seq![(key, value)] + s);
        assert(rhs == seq![(key, g(value))] + m);
        assert forall|i: int| 0 <= i < lhs.len() implies lhs[i] == rhs[i] by {
            if i == 0 {
                assert((seq![(key, value)] + s)[0] == (key, value));
            } else {
                assert((seq![(key, value)] + s)[i] == s[i - 1]);
            }
        }
        assert(lhs =~= rhs);
    }
}

/// Removal commutes with mapping the values.
pub proof fn lemma_map_remove<A, B>(s: Seq<(u64, A)>, key: u64, g: spec_fn(A) -> B)
    ensures
        mapped(seq_remove(s, key), g) == seq_remove(mapped(s, g), key),
    decreases s.len(),
{
    let m = mapped(s, g);
    let lhs = mapped(seq_remove(s, key), g);
    let rhs = seq_remove(m, key);
    if s.len() == 0 {
        assert(lhs =~= rhs);
    } else if s[0].0 == key {
        assert(rhs == m.drop_first());
        assert forall|i: int| 0 <= i < lhs.len() implies lhs[i] == rhs[i] by {
            assert(s.drop_first()[i] == s[i + 1]);
        }
        assert(lhs =~= rhs);
    } else {
        let rest = s.drop_first();
        lemma_map_remove(rest, key, g);
        assert(mapped(rest, g) =~= m.drop_first());
        let x = seq_remove(rest, key);
        assert(seq_remove(s, key) == seq![s[0]] + x);
        assert(rhs == seq![m[0]] + seq_remove(m.drop_first(), key));
        assert forall|i: int| 0 <= i < lhs.len() implies lhs[i] == rhs[i] by {
            if i == 0 {
                assert((seq![s[0]] + x)[0] == s[0]);
            } else {
                assert((seq![s[0]] + x)[i] == x[i - 1]);
                assert(lhs[i] == mapped(x, g)[i - 1]);
            }
        }
        assert(lhs =~= rhs);
    }
}

/// A key below every key of a sequence is not found in it.
proof fn lemma_absent_key<V>(s: Seq<(u64, V)>, key: u64)
    requires
        forall|i: int| 0 <= i < s.len() ==> key < (#[trigger] s[i]).0,
    ensures
        find_entry(s, key) is None,
    decreases s.len(),
{
    if s.len() > 0 {
        let rest = s.drop_first();
        assert forall|i: int| 0 <= i < rest.len() implies key < (#[trigger] rest[i]).0 by {
            assert(rest[i] == s[i + 1]);
        }
        lemma_absent_key(rest, key);
    }
}

/// What `seq_remove` does to a sorted sequence: the order is kept, `key` is
/// gone, every other key maps to what it did, and every entry of the result
/// is one of `s`.
pub proof fn lemma_seq_remove<V>(s: Seq<(u64, V)>, key: u64)
    requires
        entries_sorted(s),
    ensures
        entries_sorted(seq_remove(s, key)),
        find_entry(seq_remove(s, key), key) is None,
        forall|k2: u64|
            k2 != key ==> find_entry(seq_remove(s, key), k2) == find_entry(s, k2),
        seq_remove(s, key).len() == s.len() - (if has_key(s, key) {
            1int
        } else {
            0int
        }),
        forall|i: int|
            0 <= i < seq_remove(s, key).len() ==> s.contains(#[trigger] seq_remove(s, key)[i]),
    decreases s.len(),
{
    let r = seq_remove(s, key);
    if s.len() == 0 {
    } else if s[0].0 == key {
        let rest = s.drop_first();
        assert(r =~= rest);
        assert forall|i: int, j: int| 0 <= i < j < r.len() implies r[i].0 < r[j].0 by {
            assert(r[i] == s[i + 1] && r[j] == s[j + 1]);
        }
        assert forall|i: int| 0 <= i < rest.len() implies key < (#[trigger] rest[i]).0 by {
            assert(rest[i] == s[i + 1]);
        }
        lemma_absent_key(rest, key);
        assert forall|k2: u64| k2 != key implies find_entry(r, k2) == find_entry(s, k2) by {
            assert(find_entry(s, k2) == find_entry(rest, k2));
        }
        assert forall|i: int| 0 <= i < r.len() implies s.contains(#[trigger] r[i]) by {
            assert(s[i + 1] == r[i]);
        }
    } else {
        let rest = s.drop_first();
        assert(entries_sorted(rest));
        lemma_seq_remove(rest, key);
        let rr = seq_remove(rest, key);
        assert(r == seq![s[0]] + rr);
        assert(r.drop_first() =~= rr);
        assert forall|i: int| 0 <= i < r.len() implies s.contains(#[trigger] r[i]) by {
            if i == 0 {
                assert(s[0] == r[0]);
            } else {
                assert(r[i] == rr[i - 1]);
                assert(rest.contains(rr[i - 1]));
                let w = choose|w: int| 0 <= w < rest.len() && rest[w] == rr[i - 1];
                assert(s[w + 1] == r[i]);
            }
        }
        assert forall|i: int, j: int| 0 <= i < j < r.len() implies r[i].0 < r[j].0 by {
            if i == 0 {
                let e = r[j];
                assert(e == rr[j - 1]);
                assert(rest.contains(e));
                let w = choose|w: int| 0 <= w < rest.len() && rest[w] == e;
                assert(s[w + 1] == e);
            } else {
                assert(r[i] == rr[i - 1] && r[j] == rr[j - 1]);
            }
        }
        assert forall|k2: u64| k2 != key implies find_entry(r, k2) == find_entry(s, k2) by {
            assert(find_entry(r, k2) == if r[0].0 == k2 {
                Some(r[0].1)
            } else {
                find_entry(rr, k2)
            });
            assert(find_entry(s, k2) == if s[0].0 == k2 {
                Some(s[0].1)
            } else {
                find_entry(rest, k2)
            });
        }
        assert(find_entry(r, key) == find_entry(rr, key));
    }
}

} // verus!
