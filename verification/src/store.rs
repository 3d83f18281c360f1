//! The ordering discipline shared by the record stores: sequences kept
//! strictly ascending by 128-bit identity, and the laws that follow from
//! that shape.

use vstd::prelude::*;

verus! {

/// A record shape that carries an ordering identity.
pub trait Keyed {
    /// The identity that orders records and makes them unique in a store.
    spec fn key(self) -> u128;
}

impl Keyed for u128 {
    open spec fn key(self) -> u128 {
        self
    }
}

/// Strictly ascending by identity: sorted, and free of duplicate identities.
pub open spec fn sorted_keys<T: Keyed>(s: Seq<T>) -> bool {
    forall|i: int, j: int|
        #![trigger s[i].key(), s[j].key()]
        0 <= i < j < s.len() ==> s[i].key() < s[j].key()
}

/// In a strictly sorted sequence an identity occurs at one position at most.
pub proof fn lemma_key_unique<T: Keyed>(s: Seq<T>, i: int, j: int)
    requires
        sorted_keys(s),
        0 <= i < s.len(),
        0 <= j < s.len(),
        s[i].key() == s[j].key(),
    ensures
        i == j,
{
    if i < j {
        assert(s[i].key() < s[j].key());
    }
    if j < i {
        assert(s[j].key() < s[i].key());
    }
}

/// Inserting a record between its neighbours keeps the sequence sorted and
/// adds exactly that record to the members.
pub proof fn lemma_sorted_insert<T: Keyed>(s: Seq<T>, i: int, t: T)
    requires
        sorted_keys(s),
        0 <= i <= s.len(),
        forall|k: int| 0 <= k < i ==> #[trigger] s[k].key() < t.key(),
        forall|k: int| i <= k < s.len() ==> #[trigger] s[k].key() > t.key(),
    ensures
        sorted_keys(s.insert(i, t)),
        forall|v: T| #[trigger] s.insert(i, t).contains(v) <==> s.contains(v) || v == t,
{
    let r = s.insert(i, t);
    s.insert_ensures(i, t);
    assert forall|a: int, b: int|
        #![trigger r[a].key(), r[b].key()]
        0 <= a < b < r.len() implies r[a].key() < r[b].key() by {
        if a < i {
            assert(r[a] == s[a]);
        } else if a == i {
            assert(r[a] == t);
        } else {
            assert(r[a] == s[a - 1]);
        }
        if b < i {
            assert(r[b] == s[b]);
        } else if b == i {
            assert(r[b] == t);
        } else {
            assert(r[b] == s[b - 1]);
        }
    }
    assert forall|v: T| #[trigger] r.contains(v) implies s.contains(v) || v == t by {
        let k = choose|k: int| 0 <= k < r.len() && r[k] == v;
        if k < i {
            assert(s[k] == v);
            assert(s.contains(v));
        } else if k == i {
            assert(v == t);
        } else {
            assert(s[k - 1] == v);
            assert(s.contains(v));
        }
    }
    assert forall|v: T| s.contains(v) || v == t implies #[trigger] r.contains(v) by {
        if v == t {
            assert(r[i] == v);
        } else {
            let k = choose|k: int| 0 <= k < s.len() && s[k] == v;
            if k < i {
                assert(r[k] == v);
            } else {
                assert(r[k + 1] == v);
            }
        }
    }
}

/// Replacing the one record that carries an identity keeps the sequence
/// sorted; the members lose the old record and gain the new one.
pub proof fn lemma_sorted_update<T: Keyed>(s: Seq<T>, i: int, t: T)
    requires
        sorted_keys(s),
        0 <= i < s.len(),
        s[i].key() == t.key(),
    ensures
        sorted_keys(s.update(i, t)),
        forall|v: T|
            #[trigger] s.update(i, t).contains(v) <==> (s.contains(v) && v.key() != t.key()) || v
                == t,
{
    let r = s.update(i, t);
    assert forall|a: int, b: int|
        #![trigger r[a].key(), r[b].key()]
        0 <= a < b < r.len() implies r[a].key() < r[b].key() by {
        assert(a != i ==> r[a] == s[a]);
        assert(b != i ==> r[b] == s[b]);
    }
    assert forall|v: T| #[trigger] r.contains(v) implies (s.contains(v) && v.key() != t.key()) || v
        == t by {
        let k = choose|k: int| 0 <= k < r.len() && r[k] == v;
        if k == i {
            assert(v == t);
        } else {
            assert(s[k] == v);
            assert(s.contains(v));
            if v.key() == t.key() {
                lemma_key_unique(s, k, i);
            }
        }
    }
    assert forall|v: T| (s.contains(v) && v.key() != t.key()) || v == t implies #[trigger] r.contains(
        v,
    ) by {
        if v == t {
            assert(r[i] == v);
        } else {
            let k = choose|k: int| 0 <= k < s.len() && s[k] == v;
            assert(k != i);
            assert(r[k] == v);
        }
    }
}

/// Removing the record at one position keeps the sequence sorted; the
/// members lose exactly the records that carry its identity.
pub proof fn lemma_sorted_remove<T: Keyed>(s: Seq<T>, i: int)
    requires
        sorted_keys(s),
        0 <= i < s.len(),
    ensures
        sorted_keys(s.remove(i)),
        forall|v: T|
            #[trigger] s.remove(i).contains(v) <==> s.contains(v) && v.key() != s[i].key(),
{
    let r = s.remove(i);
    s.remove_ensures(i);
    assert forall|a: int, b: int|
        #![trigger r[a].key(), r[b].key()]
        0 <= a < b < r.len() implies r[a].key() < r[b].key() by {
        assert(r[a] == if a < i {
            s[a]
        } else {
            s[a + 1]
        });
        assert(r[b] == if b < i {
            s[b]
        } else {
            s[b + 1]
        });
    }
    assert forall|v: T| #[trigger] r.contains(v) implies s.contains(v) && v.key() != s[i].key() by {
        let k = choose|k: int| 0 <= k < r.len() && r[k] == v;
        let k0 = if k < i {
            k
        } else {
            k + 1
        };
        assert(s[k0] == v);
        assert(s.contains(v));
        if v.key() == s[i].key() {
            lemma_key_unique(s, k0, i);
        }
    }
    assert forall|v: T| s.contains(v) && v.key() != s[i].key() implies #[trigger] r.contains(
        v,
    ) by {
        let k = choose|k: int| 0 <= k < s.len() && s[k] == v;
        assert(k != i);
        if k < i {
            assert(r[k] == v);
        } else {
            assert(r[k - 1] == v);
        }
    }
}

/// When no member carries an identity, no position does either: after a
/// removal, a lookup by the removed identity finds nothing.
pub proof fn lemma_absent_id_at_no_position<T: Keyed>(s: Seq<T>, id: u128)
    requires
        forall|v: T| #[trigger] s.contains(v) ==> v.key() != id,
    ensures
        forall|k: int| 0 <= k < s.len() ==> (#[trigger] s[k]).key() != id,
{
    assert forall|k: int| 0 <= k < s.len() implies (#[trigger] s[k]).key() != id by {
        assert(s.contains(s[k]));
    }
}

/// Two strictly sorted sequences with the same members are the same
/// sequence: the sorted shape is canonical.
pub proof fn lemma_sorted_same_members<T: Keyed>(a: Seq<T>, b: Seq<T>)
    requires
        sorted_keys(a),
        sorted_keys(b),
        forall|v: T| a.contains(v) <==> #[trigger] b.contains(v),
    ensures
        a == b,
    decreases a.len(),
{
    if a.len() == 0 {
        if b.len() > 0 {
            assert(b.contains(b[0]));
            assert(a.contains(b[0]));
        }
        assert(a =~= b);
    } else {
        assert(a.contains(a[0]));
        assert(b.contains(a[0]));
        let j = choose|j: int| 0 <= j < b.len() && b[j] == a[0];
        assert(b.contains(b[0]));
        assert(a.contains(b[0]));
        let i = choose|i: int| 0 <= i < a.len() && a[i] == b[0];
        if j > 0 {
            assert(b[0].key() < b[j].key());
        }
        if i > 0 {
            assert(a[0].key() < a[i].key());
        }
        assert(a[0].key() == b[0].key());
        lemma_key_unique(b, j, 0);
        assert(a[0] == b[0]);
        let at = a.drop_first();
        let bt = b.drop_first();
        assert forall|x: int, y: int|
            #![trigger at[x].key(), at[y].key()]
            0 <= x < y < at.len() implies at[x].key() < at[y].key() by {
            assert(at[x] == a[x + 1]);
            assert(at[y] == a[y + 1]);
        }
        assert forall|x: int, y: int|
            #![trigger bt[x].key(), bt[y].key()]
            0 <= x < y < bt.len() implies bt[x].key() < bt[y].key() by {
            assert(bt[x] == b[x + 1]);
            assert(bt[y] == b[y + 1]);
        }
        assert forall|v: T| at.contains(v) <==> #[trigger] bt.contains(v) by {
            assert(at.contains(v) <==> a.contains(v) && v != a[0]) by {
                lemma_tail_members(a, v);
            }
            assert(bt.contains(v) <==> b.contains(v) && v != b[0]) by {
                lemma_tail_members(b, v);
            }
        }
        lemma_sorted_same_members(at, bt);
        assert(a.len() == b.len());
        assert forall|k: int| 0 <= k < a.len() implies a[k] == b[k] by {
            if k > 0 {
                assert(at[k - 1] == a[k]);
                assert(bt[k - 1] == b[k]);
            }
        }
        assert(a =~= b);
    }
}

/// In a strictly sorted, nonempty sequence the tail holds exactly the
/// members other than the head.
proof fn lemma_tail_members<T: Keyed>(s: Seq<T>, v: T)
    requires
        sorted_keys(s),
        s.len() > 0,
    ensures
        s.drop_first().contains(v) <==> s.contains(v) && v != s[0],
{
    let t = s.drop_first();
    if t.contains(v) {
        let k = choose|k: int| 0 <= k < t.len() && t[k] == v;
        assert(s[k + 1] == v);
        assert(s.contains(v));
        if v == s[0] {
            lemma_key_unique(s, k + 1, 0);
        }
    }
    if s.contains(v) && v != s[0] {
        let k = choose|k: int| 0 <= k < s.len() && s[k] == v;
        assert(k != 0);
        assert(t[k - 1] == v);
        assert(t.contains(v));
    }
}

} // verus!
