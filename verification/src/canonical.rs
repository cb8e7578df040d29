//! The canonical form of a document: the members of every object in the
//! order of their keys. Two documents that differ in the order of their
//! members alone have the same canonical form where no key occurs twice.

use vstd::prelude::*;
use vstd::string::*;
use vstd::utf8::*;
use crate::json::{Json, JsonModel};

verus! {

/// Whether `a` comes before `b` in the order of the dictionary, from
/// position `i` on.
pub open spec fn before_from(a: Seq<u8>, b: Seq<u8>, i: int) -> bool
    decreases a.len() - i,
{
    if i < 0 || i >= b.len() {
        false
    } else if i >= a.len() {
        true
    } else if a[i] != b[i] {
        a[i] < b[i]
    } else {
        before_from(a, b, i + 1)
    }
}

/// Whether the text `a` comes before the text `b`: in the order of the
/// dictionary on their UTF-8 bytes.
pub open spec fn text_before(a: Seq<char>, b: Seq<char>) -> bool {
    before_from(encode_utf8(a), encode_utf8(b), 0)
}

/// Whether the text `a` comes before the text `b`.
pub fn comes_before(a: &str, b: &str) -> (res: bool)
    ensures
        res == text_before(a@, b@),
{
    let x = a.as_bytes();
    let y = b.as_bytes();
    let mut i: usize = 0;
    loop
        invariant
            i <= x@.len(),
            i <= y@.len(),
            x@ == encode_utf8(a@),
            y@ == encode_utf8(b@),
            before_from(x@, y@, 0) == before_from(x@, y@, i as int),
        decreases x@.len() - i,
    {
        if i >= y.len() {
            return false;
        }
        if i >= x.len() {
            return true;
        }
        if x[i] != y[i] {
            return x[i] < y[i];
        }
        i = i + 1;
    }
}

/// The members with one more, put behind the last member whose key does not
/// come after its key.
pub open spec fn with_member<V>(
    sorted: Seq<(Seq<char>, V)>,
    m: (Seq<char>, V),
) -> Seq<(Seq<char>, V)>
    decreases sorted.len(),
{
    if sorted.len() == 0 {
        seq![m]
    } else if text_before(m.0, sorted.last().0) {
        with_member(sorted.drop_last(), m).push(sorted.last())
    } else {
        sorted.push(m)
    }
}

/// The first `n` members in the order of their keys. Members with the same
/// key keep their order.
pub open spec fn sorted_members<V>(members: Seq<(Seq<char>, V)>, n: nat) -> Seq<
    (Seq<char>, V),
>
    decreases n,
{
    if n == 0 || n > members.len() {
        Seq::empty()
    } else {
        with_member(sorted_members(members, (n - 1) as nat), members[n - 1])
    }
}

/// The canonical form of a document: every object in it has its members in
/// the order of their keys.
pub open spec fn canonical(doc: JsonModel) -> JsonModel
    decreases doc,
{
    match doc {
        JsonModel::Array(items) => JsonModel::Array(
            Seq::new(
                items.len(),
                |i: int|
                    if 0 <= i < items.len() {
                        canonical(items[i])
                    } else {
                        JsonModel::Null
                    },
            ),
        ),
        JsonModel::Object(members) => JsonModel::Object(
            sorted_members(canonical_values(members), members.len()),
        ),
        _ => doc,
    }
}

/// The members, each with the canonical form of its value.
pub open spec fn canonical_values(members: Seq<(Seq<char>, JsonModel)>) -> Seq<
    (Seq<char>, JsonModel),
>
    decreases members,
{
    Seq::new(
        members.len(),
        |i: int|
            if 0 <= i < members.len() {
                (members[i].0, canonical(members[i].1))
            } else {
                (Seq::empty(), JsonModel::Null)
            },
    )
}

/// Whether the keys of the members stand in order: no key comes before a key
/// that stands before it.
pub open spec fn ordered_keys<V>(members: Seq<(Seq<char>, V)>) -> bool {
    forall|i: int, j: int|
        0 <= i < j < members.len() ==> !text_before(
            (#[trigger] members[j]).0,
            (#[trigger] members[i]).0,
        )
}

/// Whether no key occurs twice among the members.
pub open spec fn no_key_twice<V>(members: Seq<(Seq<char>, V)>) -> bool {
    forall|i: int, j: int|
        0 <= i < j < members.len() ==> (#[trigger] members[i]).0 != (#[trigger] members[j]).0
}

/// Whether two lists hold the same members, in whatever order.
pub open spec fn same_members<V>(
    a: Seq<(Seq<char>, V)>,
    b: Seq<(Seq<char>, V)>,
) -> bool {
    forall|m: (Seq<char>, V)| a.contains(m) <==> b.contains(m)
}

/// Of two byte strings, not each comes before the other.
proof fn lemma_before_one_way(a: Seq<u8>, b: Seq<u8>, i: int)
    requires
        0 <= i,
        before_from(a, b, i),
    ensures
        !before_from(b, a, i),
    decreases a.len() - i,
{
    if i < a.len() && i < b.len() && a[i] == b[i] {
        lemma_before_one_way(a, b, i + 1);
    }
}

/// Where `a` comes before `c`, it comes before any `b`, or `b` comes before
/// `c`.
proof fn lemma_before_between(a: Seq<u8>, b: Seq<u8>, c: Seq<u8>, i: int)
    requires
        0 <= i,
        before_from(a, c, i),
    ensures
        before_from(a, b, i) || before_from(b, c, i),
    decreases a.len() - i,
{
    if i < a.len() && i < b.len() && i < c.len() && a[i] == b[i] && b[i] == c[i] {
        lemma_before_between(a, b, c, i + 1);
    }
}

/// Of two byte strings that are the same up to position `i` and not the
/// same, one comes before the other.
proof fn lemma_before_either(a: Seq<u8>, b: Seq<u8>, i: int)
    requires
        0 <= i <= a.len(),
        i <= b.len(),
        forall|k: int| 0 <= k < i ==> a[k] == b[k],
        a != b,
    ensures
        before_from(a, b, i) || before_from(b, a, i),
    decreases a.len() - i,
{
    if i < a.len() && i < b.len() {
        if a[i] == b[i] {
            lemma_before_either(a, b, i + 1);
        }
    } else if i == a.len() && i == b.len() {
        assert(a =~= b);
    }
}

/// Of two texts, not each comes before the other.
pub proof fn lemma_text_one_way(a: Seq<char>, b: Seq<char>)
    requires
        text_before(a, b),
    ensures
        !text_before(b, a),
{
    lemma_before_one_way(encode_utf8(a), encode_utf8(b), 0);
}

/// Where a text comes before another, it comes before any third, or the
/// third comes before the other.
pub proof fn lemma_text_between(a: Seq<char>, b: Seq<char>, c: Seq<char>)
    requires
        text_before(a, c),
    ensures
        text_before(a, b) || text_before(b, c),
{
    lemma_before_between(encode_utf8(a), encode_utf8(b), encode_utf8(c), 0);
}

/// Of two texts that are not the same, one comes before the other.
pub proof fn lemma_text_either(a: Seq<char>, b: Seq<char>)
    requires
        a != b,
    ensures
        text_before(a, b) || text_before(b, a),
{
    encode_utf8_decode_utf8(a);
    encode_utf8_decode_utf8(b);
    lemma_before_either(encode_utf8(a), encode_utf8(b), 0);
}

/// A list with one more member holds that member and the members that it
/// held, and nothing else; and it stands in order where it stood in order.
pub proof fn lemma_with_member_holds<V>(sorted: Seq<(Seq<char>, V)>, m: (Seq<char>, V))
    ensures
        with_member(sorted, m).len() == sorted.len() + 1,
        forall|x: (Seq<char>, V)|
            with_member(sorted, m).contains(x) <==> (sorted.contains(x) || x == m),
        ordered_keys(sorted) ==> ordered_keys(with_member(sorted, m)),
        no_key_twice(sorted) && (forall|i: int|
            0 <= i < sorted.len() ==> (#[trigger] sorted[i]).0 != m.0) ==> no_key_twice(
            with_member(sorted, m),
        ),
    decreases sorted.len(),
{
    let grown = with_member(sorted, m);
    if sorted.len() == 0 {
        assert(grown[0] == m);
        assert forall|x: (Seq<char>, V)| grown.contains(x) <==> (sorted.contains(x) || x
            == m) by {
            if grown.contains(x) {
                let i = choose|i: int| 0 <= i < grown.len() && grown[i] == x;
                assert(grown[i] == m);
            }
        }
    } else if text_before(m.0, sorted.last().0) {
        let rest = sorted.drop_last();
        let last = sorted.last();
        let inner = with_member(rest, m);
        lemma_with_member_holds(rest, m);
        assert(grown == inner.push(last));
        assert forall|x: (Seq<char>, V)| grown.contains(x) <==> (sorted.contains(x) || x
            == m) by {
            if grown.contains(x) {
                let i = choose|i: int| 0 <= i < grown.len() && grown[i] == x;
                if i < inner.len() {
                    assert(inner[i] == x);
                    assert(inner.contains(x));
                    if rest.contains(x) {
                        let k = choose|k: int| 0 <= k < rest.len() && rest[k] == x;
                        assert(sorted[k] == x);
                    }
                } else {
                    assert(sorted[sorted.len() - 1] == x);
                }
            }
            if sorted.contains(x) {
                let k = choose|k: int| 0 <= k < sorted.len() && sorted[k] == x;
                if k < rest.len() {
                    assert(rest[k] == x);
                    assert(rest.contains(x));
                    assert(inner.contains(x));
                    let i = choose|i: int| 0 <= i < inner.len() && inner[i] == x;
                    assert(grown[i] == x);
                } else {
                    assert(grown[grown.len() - 1] == x);
                }
            }
            if x == m {
                assert(inner.contains(x));
                let i = choose|i: int| 0 <= i < inner.len() && inner[i] == x;
                assert(grown[i] == x);
            }
        }
        if ordered_keys(sorted) {
            assert(ordered_keys(rest)) by {
                assert forall|i: int, j: int| 0 <= i < j < rest.len() implies !text_before(
                    (#[trigger] rest[j]).0,
                    (#[trigger] rest[i]).0,
                ) by {
                    assert(rest[i] == sorted[i] && rest[j] == sorted[j]);
                }
            }
            assert forall|i: int, j: int| 0 <= i < j < grown.len() implies !text_before(
                (#[trigger] grown[j]).0,
                (#[trigger] grown[i]).0,
            ) by {
                if j < inner.len() {
                    assert(grown[i] == inner[i] && grown[j] == inner[j]);
                } else {
                    assert(grown[j] == last);
                    assert(grown[i] == inner[i]);
                    assert(inner.contains(inner[i]));
                    if inner[i] == m {
                        lemma_text_one_way(m.0, last.0);
                    } else {
                        assert(rest.contains(inner[i]));
                        let k = choose|k: int| 0 <= k < rest.len() && rest[k] == inner[i];
                        assert(sorted[k] == inner[i]);
                        assert(!text_before(sorted[sorted.len() - 1].0, sorted[k].0));
                    }
                }
            }
        }
        if no_key_twice(sorted) && (forall|i: int|
            0 <= i < sorted.len() ==> (#[trigger] sorted[i]).0 != m.0) {
            assert(no_key_twice(rest)) by {
                assert forall|i: int, j: int| 0 <= i < j < rest.len() implies (#[trigger] rest[i]).0
                    != (#[trigger] rest[j]).0 by {
                    assert(rest[i] == sorted[i] && rest[j] == sorted[j]);
                }
            }
            assert forall|i: int| 0 <= i < rest.len() implies (#[trigger] rest[i]).0 != m.0 by {
                assert(rest[i] == sorted[i]);
            }
            assert forall|i: int, j: int| 0 <= i < j < grown.len() implies (#[trigger] grown[i]).0
                != (#[trigger] grown[j]).0 by {
                if j < inner.len() {
                    assert(grown[i] == inner[i] && grown[j] == inner[j]);
                } else {
                    assert(grown[j] == last);
                    assert(grown[i] == inner[i]);
                    assert(inner.contains(inner[i]));
                    if inner[i] == m {
                        assert(sorted[sorted.len() - 1].0 != m.0);
                    } else {
                        assert(rest.contains(inner[i]));
                        let k = choose|k: int| 0 <= k < rest.len() && rest[k] == inner[i];
                        assert(sorted[k] == inner[i]);
                        assert(sorted[k].0 != sorted[sorted.len() - 1].0);
                    }
                }
            }
        }
    } else {
        assert(grown == sorted.push(m));
        assert forall|x: (Seq<char>, V)| grown.contains(x) <==> (sorted.contains(x) || x
            == m) by {
            if grown.contains(x) {
                let i = choose|i: int| 0 <= i < grown.len() && grown[i] == x;
                if i < sorted.len() {
                    assert(sorted[i] == x);
                }
            }
            if sorted.contains(x) {
                let k = choose|k: int| 0 <= k < sorted.len() && sorted[k] == x;
                assert(grown[k] == x);
            }
            if x == m {
                assert(grown[grown.len() - 1] == x);
            }
        }
        if ordered_keys(sorted) {
            assert forall|i: int, j: int| 0 <= i < j < grown.len() implies !text_before(
                (#[trigger] grown[j]).0,
                (#[trigger] grown[i]).0,
            ) by {
                if j < sorted.len() {
                    assert(grown[i] == sorted[i] && grown[j] == sorted[j]);
                } else {
                    assert(grown[j] == m);
                    assert(grown[i] == sorted[i]);
                    let last = sorted[sorted.len() - 1];
                    if i < sorted.len() - 1 {
                        assert(!text_before(last.0, sorted[i].0));
                    }
                    if text_before(m.0, sorted[i].0) {
                        lemma_text_between(m.0, last.0, sorted[i].0);
                    }
                }
            }
        }
        if no_key_twice(sorted) && (forall|i: int|
            0 <= i < sorted.len() ==> (#[trigger] sorted[i]).0 != m.0) {
            assert forall|i: int, j: int| 0 <= i < j < grown.len() implies (#[trigger] grown[i]).0
                != (#[trigger] grown[j]).0 by {
                assert(grown[i] == sorted[i]);
                if j < sorted.len() {
                    assert(grown[j] == sorted[j]);
                } else {
                    assert(grown[j] == m);
                }
            }
        }
    }
}

/// The first `n` members in order are those members, in order.
pub proof fn lemma_sorted_members_hold<V>(members: Seq<(Seq<char>, V)>, n: nat)
    requires
        n <= members.len(),
    ensures
        sorted_members(members, n).len() == n,
        forall|x: (Seq<char>, V)|
            sorted_members(members, n).contains(x) <==> exists|i: int|
                0 <= i < n && #[trigger] members[i] == x,
        ordered_keys(sorted_members(members, n)),
        no_key_twice(members) ==> no_key_twice(sorted_members(members, n)),
    decreases n,
{
    let sorted = sorted_members(members, n);
    if n == 0 {
        assert forall|x: (Seq<char>, V)| sorted.contains(x) <==> exists|i: int|
            0 <= i < n && #[trigger] members[i] == x by {
            if sorted.contains(x) {
                let i = choose|i: int| 0 <= i < sorted.len() && sorted[i] == x;
            }
        }
    } else {
        let earlier = sorted_members(members, (n - 1) as nat);
        lemma_sorted_members_hold(members, (n - 1) as nat);
        lemma_with_member_holds(earlier, members[n - 1]);
        assert(sorted == with_member(earlier, members[n - 1]));
        assert forall|x: (Seq<char>, V)| sorted.contains(x) <==> exists|i: int|
            0 <= i < n && #[trigger] members[i] == x by {
            assert(sorted.contains(x) <==> (earlier.contains(x) || x == members[n - 1]));
            assert(earlier.contains(x) <==> exists|i: int|
                0 <= i < n - 1 && #[trigger] members[i] == x);
            if sorted.contains(x) {
                if earlier.contains(x) {
                    let i = choose|i: int| 0 <= i < n - 1 && #[trigger] members[i] == x;
                    assert(0 <= i < n && members[i] == x);
                } else {
                    assert(0 <= n - 1 < n && members[n - 1] == x);
                }
            }
            if exists|i: int| 0 <= i < n && #[trigger] members[i] == x {
                let i = choose|i: int| 0 <= i < n && #[trigger] members[i] == x;
                if i < n - 1 {
                    assert(0 <= i < n - 1 && members[i] == x);
                    assert(earlier.contains(x));
                } else {
                    assert(x == members[n - 1]);
                }
            }
        }
        if no_key_twice(members) {
            assert forall|i: int| 0 <= i < earlier.len() implies (#[trigger] earlier[i]).0
                != members[n - 1].0 by {
                assert(earlier.contains(earlier[i]));
                let k = choose|k: int| 0 <= k < n - 1 && #[trigger] members[k] == earlier[i];
                assert(members[k].0 != members[n - 1].0);
            }
        }
    }
}

/// Two lists that stand in order, hold the same members and hold no key
/// twice are the same list.
pub proof fn lemma_order_is_one<V>(a: Seq<(Seq<char>, V)>, b: Seq<(Seq<char>, V)>)
    requires
        ordered_keys(a),
        ordered_keys(b),
        no_key_twice(a),
        no_key_twice(b),
        same_members(a, b),
    ensures
        a == b,
{
    lemma_same_up_to(a, b, a.len() as int);
    lemma_same_up_to(b, a, b.len() as int);
    assert(a =~= b);
}

/// Two lists that stand in order, hold the same members and hold no key
/// twice are the same up to position `n` of the first.
proof fn lemma_same_up_to<V>(
    a: Seq<(Seq<char>, V)>,
    b: Seq<(Seq<char>, V)>,
    n: int,
)
    requires
        ordered_keys(a),
        ordered_keys(b),
        no_key_twice(a),
        no_key_twice(b),
        same_members(a, b),
        0 <= n <= a.len(),
    ensures
        n <= b.len(),
        forall|i: int| 0 <= i < n ==> a[i] == b[i],
    decreases n,
{
    if n > 0 {
        lemma_same_up_to(a, b, n - 1);
        let i = n - 1;
        // Where a[i] stands in b.
        assert(a.contains(a[i]));
        assert(b.contains(a[i]));
        let j = choose|j: int| 0 <= j < b.len() && b[j] == a[i];
        if j < i {
            assert(b[j] == a[j]);
            assert(a[j].0 != a[i].0);
        }
        assert(j >= i);
        // Where b[i] stands in a.
        assert(b.contains(b[i]));
        assert(a.contains(b[i]));
        let k = choose|k: int| 0 <= k < a.len() && a[k] == b[i];
        if k < i {
            assert(a[k] == b[k]);
            assert(b[k].0 != b[i].0);
        }
        assert(k >= i);
        if j > i {
            // b[i] and a[i] = b[j] have different keys, and b[i] comes first in b.
            assert(b[i].0 != b[j].0);
            assert(!text_before(b[j].0, b[i].0));
            lemma_text_either(b[i].0, b[j].0);
            assert(text_before(b[i].0, a[i].0));
            // But b[i] = a[k] stands at or behind a[i] in a.
            if k > i {
                assert(!text_before(a[k].0, a[i].0));
            }
            lemma_text_one_way(b[i].0, a[i].0);
        }
    }
}

/// The order of the members does not depend on the order in which they came:
/// two lists that hold the same members, and no key twice, have the same
/// members in order.
pub proof fn lemma_sorted_order_free<V>(a: Seq<(Seq<char>, V)>, b: Seq<(Seq<char>, V)>)
    requires
        no_key_twice(a),
        no_key_twice(b),
        same_members(a, b),
    ensures
        sorted_members(a, a.len()) == sorted_members(b, b.len()),
{
    let x = sorted_members(a, a.len());
    let y = sorted_members(b, b.len());
    lemma_sorted_members_hold(a, a.len());
    lemma_sorted_members_hold(b, b.len());
    assert forall|m: (Seq<char>, V)| x.contains(m) <==> y.contains(m) by {
        if x.contains(m) {
            let i = choose|i: int| 0 <= i < a.len() && #[trigger] a[i] == m;
            assert(a.contains(m));
            assert(b.contains(m));
            let j = choose|j: int| 0 <= j < b.len() && b[j] == m;
            assert(b[j] == m);
        }
        if y.contains(m) {
            let i = choose|i: int| 0 <= i < b.len() && #[trigger] b[i] == m;
            assert(b.contains(m));
            assert(a.contains(m));
            let j = choose|j: int| 0 <= j < a.len() && a[j] == m;
            assert(a[j] == m);
        }
    }
    lemma_order_is_one(x, y);
}

/// The canonical form of an object has its members in the order of their
/// keys.
pub proof fn lemma_canonical_ordered(members: Seq<(Seq<char>, JsonModel)>)
    ensures
        canonical(JsonModel::Object(members)) is Object,
        ordered_keys(canonical(JsonModel::Object(members))->Object_0),
        canonical(JsonModel::Object(members))->Object_0.len() == members.len(),
{
    lemma_sorted_members_hold(canonical_values(members), members.len());
}

/// The canonical form of an object does not depend on the order of its
/// members: two objects that hold the same members, and no key twice, have
/// the same canonical form.
pub proof fn lemma_canonical_order_free(
    a: Seq<(Seq<char>, JsonModel)>,
    b: Seq<(Seq<char>, JsonModel)>,
)
    requires
        no_key_twice(a),
        no_key_twice(b),
        same_members(a, b),
    ensures
        canonical(JsonModel::Object(a)) == canonical(JsonModel::Object(b)),
{
    let x = canonical_values(a);
    let y = canonical_values(b);
    assert(no_key_twice(x));
    assert(no_key_twice(y));
    assert forall|m: (Seq<char>, JsonModel)| x.contains(m) <==> y.contains(m) by {
        if x.contains(m) {
            let i = choose|i: int| 0 <= i < x.len() && x[i] == m;
            assert(a.contains(a[i]));
            let j = choose|j: int| 0 <= j < b.len() && b[j] == a[i];
            assert(y[j] == m);
        }
        if y.contains(m) {
            let i = choose|i: int| 0 <= i < y.len() && y[i] == m;
            assert(b.contains(b[i]));
            let j = choose|j: int| 0 <= j < a.len() && a[j] == b[i];
            assert(x[j] == m);
        }
    }
    lemma_sorted_order_free(x, y);
}

/// Whether the member at position `j` of `others` has the key of `member`
/// and a value with the same canonical form as its value.
pub open spec fn matches_at(
    member: (Seq<char>, JsonModel),
    others: Seq<(Seq<char>, JsonModel)>,
    j: int,
) -> bool {
    0 <= j < others.len() && others[j].0 == member.0 && canonical(others[j].1) == canonical(
        member.1,
    )
}

/// Whether two lists hold members with the same keys, in whatever order, and
/// under each key values with the same canonical form.
pub open spec fn same_up_to_form(
    ms: Seq<(Seq<char>, JsonModel)>,
    ns: Seq<(Seq<char>, JsonModel)>,
) -> bool {
    &&& forall|i: int| 0 <= i < ms.len() ==> #[trigger] has_match(ms, ns, i)
    &&& forall|j: int| 0 <= j < ns.len() ==> #[trigger] has_source(ms, ns, j)
}

/// Whether the member at position `i` of `ms` has its like among `ns`.
pub open spec fn has_match(
    ms: Seq<(Seq<char>, JsonModel)>,
    ns: Seq<(Seq<char>, JsonModel)>,
    i: int,
) -> bool {
    exists|j: int| #[trigger] matches_at(ms[i], ns, j)
}

/// Whether the member at position `j` of `ns` has its like among `ms`.
pub open spec fn has_source(
    ms: Seq<(Seq<char>, JsonModel)>,
    ns: Seq<(Seq<char>, JsonModel)>,
    j: int,
) -> bool {
    exists|i: int| 0 <= i < ms.len() && #[trigger] matches_at(ms[i], ns, j)
}

/// The canonical form does not depend on the order of members at whatever
/// depth. Two objects that hold no key twice, the same keys in whatever
/// order, and under each key values with the same canonical form, have the
/// same canonical form. So a change of order inside a value, which leaves
/// the canonical form of the value, leaves that of every document that
/// holds the value.
pub proof fn lemma_canonical_object(ms: Seq<(Seq<char>, JsonModel)>, ns: Seq<(Seq<char>, JsonModel)>)
    requires
        no_key_twice(ms),
        no_key_twice(ns),
        same_up_to_form(ms, ns),
    ensures
        canonical(JsonModel::Object(ms)) == canonical(JsonModel::Object(ns)),
{
    let x = canonical_values(ms);
    let y = canonical_values(ns);
    assert forall|i: int, j: int| 0 <= i < j < x.len() implies (#[trigger] x[i]).0 != (
    #[trigger] x[j]).0 by {
        assert(ms[i].0 != ms[j].0);
    }
    assert forall|i: int, j: int| 0 <= i < j < y.len() implies (#[trigger] y[i]).0 != (
    #[trigger] y[j]).0 by {
        assert(ns[i].0 != ns[j].0);
    }
    assert forall|m: (Seq<char>, JsonModel)| x.contains(m) <==> y.contains(m) by {
        if x.contains(m) {
            let i = choose|i: int| 0 <= i < x.len() && x[i] == m;
            assert(has_match(ms, ns, i));
            let j = choose|j: int| matches_at(ms[i], ns, j);
            assert(y[j] == m);
        }
        if y.contains(m) {
            let j = choose|j: int| 0 <= j < y.len() && y[j] == m;
            assert(has_source(ms, ns, j));
            let i = choose|i: int| 0 <= i < ms.len() && matches_at(ms[i], ns, j);
            assert(x[i] == m);
        }
    }
    lemma_sorted_order_free(x, y);
    lemma_sorted_members_hold(x, x.len());
    lemma_sorted_members_hold(y, y.len());
}

/// Whether no object in the document, at whatever depth, holds a key twice.
pub open spec fn keys_once(doc: JsonModel) -> bool
    decreases doc,
{
    match doc {
        JsonModel::Array(items) => forall|i: int|
            0 <= i < items.len() ==> keys_once(#[trigger] items[i]),
        JsonModel::Object(members) => no_key_twice(members) && forall|i: int|
            #![trigger members[i]]
            0 <= i < members.len() ==> keys_once(members[i].1),
        _ => true,
    }
}

/// Whether the member at position `j` has the key `key`.
pub open spec fn keyed_at(members: Seq<(Seq<char>, JsonModel)>, j: int, key: Seq<char>) -> bool {
    0 <= j < members.len() && members[j].0 == key
}

/// Whether two documents are the same but for the order of the members of
/// their objects, at whatever depth: arrays item by item, objects key by
/// key.
pub open spec fn alike(a: JsonModel, b: JsonModel) -> bool
    decreases a,
{
    match a {
        JsonModel::Array(xs) => b is Array && xs.len() == b->Array_0.len() && forall|i: int|
            0 <= i < xs.len() ==> alike(#[trigger] xs[i], b->Array_0[i]),
        JsonModel::Object(ms) => {
            &&& b is Object
            &&& forall|i: int|
                #![trigger ms[i]]
                0 <= i < ms.len() ==> exists|j: int|
                    #[trigger] keyed_at(b->Object_0, j, ms[i].0) && alike(ms[i].1, b->Object_0[j].1)
            &&& forall|j: int|
                #![trigger b->Object_0[j]]
                0 <= j < b->Object_0.len() ==> exists|i: int|
                    #[trigger] keyed_at(ms, i, b->Object_0[j].0) && alike(ms[i].1, b->Object_0[j].1)
        },
        _ => a == b,
    }
}

/// Two documents that are the same but for the order of the members of their
/// objects, at whatever depth, and hold no key twice in an object, have the
/// same canonical form.
pub proof fn lemma_canonical_alike(a: JsonModel, b: JsonModel)
    requires
        alike(a, b),
        keys_once(a),
        keys_once(b),
    ensures
        canonical(a) == canonical(b),
    decreases a,
{
    match a {
        JsonModel::Array(xs) => {
            let ys = b->Array_0;
            assert forall|i: int| 0 <= i < xs.len() implies canonical(#[trigger] xs[i])
                == canonical(ys[i]) by {
                assert(alike(xs[i], ys[i]));
                assert(keys_once(xs[i]));
                assert(keys_once(ys[i]));
                lemma_canonical_alike(xs[i], ys[i]);
            }
            lemma_canonical_array(xs, ys);
        },
        JsonModel::Object(ms) => {
            let ns = b->Object_0;
            assert forall|i: int| 0 <= i < ms.len() implies #[trigger] has_match(ms, ns, i) by {
                let member = ms[i];
                let j = choose|j: int|
                    #[trigger] keyed_at(ns, j, ms[i].0) && alike(ms[i].1, ns[j].1);
                assert(keyed_at(ns, j, ms[i].0) && alike(ms[i].1, ns[j].1));
                assert(keys_once(ms[i].1));
                let other = ns[j];
                assert(keys_once(ns[j].1));
                lemma_canonical_alike(ms[i].1, ns[j].1);
                assert(matches_at(ms[i], ns, j));
            }
            assert forall|j: int| 0 <= j < ns.len() implies #[trigger] has_source(ms, ns, j) by {
                let other = ns[j];
                let i = choose|i: int|
                    #[trigger] keyed_at(ms, i, ns[j].0) && alike(ms[i].1, ns[j].1);
                assert(keyed_at(ms, i, ns[j].0) && alike(ms[i].1, ns[j].1));
                let member = ms[i];
                assert(keys_once(ms[i].1));
                assert(keys_once(ns[j].1));
                lemma_canonical_alike(ms[i].1, ns[j].1);
                assert(matches_at(ms[i], ns, j));
            }
            lemma_canonical_object(ms, ns);
        },
        _ => {},
    }
}

/// Two arrays of the same length whose items have the same canonical forms,
/// position by position, have the same canonical form.
pub proof fn lemma_canonical_array(xs: Seq<JsonModel>, ys: Seq<JsonModel>)
    requires
        xs.len() == ys.len(),
        forall|i: int| 0 <= i < xs.len() ==> canonical(#[trigger] xs[i]) == canonical(ys[i]),
    ensures
        canonical(JsonModel::Array(xs)) == canonical(JsonModel::Array(ys)),
{
    assert(canonical(JsonModel::Array(xs))->Array_0 =~= canonical(JsonModel::Array(ys))->Array_0);
}

/// Putting a member at the place behind which every key comes after its key,
/// and before which the nearest key does not, is putting it in order.
pub proof fn lemma_with_member<V>(
    sorted: Seq<(Seq<char>, V)>,
    m: (Seq<char>, V),
    at: int,
)
    requires
        0 <= at <= sorted.len(),
        forall|i: int| at <= i < sorted.len() ==> text_before(m.0, (#[trigger] sorted[i]).0),
        at > 0 ==> !text_before(m.0, sorted[at - 1].0),
    ensures
        with_member(sorted, m) == sorted.insert(at, m),
    decreases sorted.len(),
{
    if sorted.len() == 0 {
        assert(sorted.insert(at, m) =~= seq![m]);
    } else if at == sorted.len() {
        assert(sorted.insert(at, m) =~= sorted.push(m));
    } else {
        assert(text_before(m.0, sorted[sorted.len() - 1].0));
        let rest = sorted.drop_last();
        assert forall|i: int| at <= i < rest.len() implies text_before(m.0, (#[trigger] rest[i]).0) by {
            assert(rest[i] == sorted[i]);
        }
        lemma_with_member(rest, m, at);
        assert(rest.insert(at, m).push(sorted.last()) =~= sorted.insert(at, m));
    }
}

/// Puts a member into members that stand in the order of their keys.
fn put_member(sorted: &mut Vec<(String, Json)>, key: String, value: Json)
    ensures
        models(final(sorted)@) == with_member(models(old(sorted)@), (key@, value@)),
{
    let mut at: usize = sorted.len();
    while at > 0 && comes_before(key.as_str(), sorted[at - 1].0.as_str())
        invariant
            at <= sorted@.len(),
            forall|i: int|
                at <= i < sorted@.len() ==> text_before(key@, (#[trigger] sorted@[i]).0@),
        decreases at,
    {
        at = at - 1;
    }
    proof {
        let before = models(sorted@);
        assert forall|i: int| at <= i < before.len() implies text_before(
            key@,
            (#[trigger] before[i]).0,
        ) by {
            assert(before[i].0 == sorted@[i].0@);
        }
        if at > 0 {
            assert(before[at - 1].0 == sorted@[at - 1].0@);
        }
        lemma_with_member(before, (key@, value@), at as int);
    }
    let ghost before = sorted@;
    sorted.insert(at, (key, value));
    assert(models(sorted@) =~= models(before).insert(at as int, (key@, value@)));
}

/// The members as mathematical values.
pub open spec fn models(members: Seq<(String, Json)>) -> Seq<(Seq<char>, JsonModel)> {
    Seq::new(members.len(), |i: int| (members[i].0@, members[i].1@))
}

impl Json {
    /// The canonical form of the document.
    pub fn canonical(&self) -> (res: Json)
        ensures
            res@ == canonical(self@),
        decreases self,
    {
        match self {
            Json::Array(items) => {
                let mut copy: Vec<Json> = Vec::new();
                let mut i: usize = 0;
                while i < items.len()
                    invariant
                        i <= items.len(),
                        self == Json::Array(*items),
                        copy@.len() == i,
                        forall|j: int| 0 <= j < i ==> copy@[j]@ == canonical(items@[j]@),
                    decreases items.len() - i,
                {
                    assert(self->Array_0 == *items);
                    let item = items[i].canonical();
                    copy.push(item);
                    i = i + 1;
                }
                let res = Json::Array(copy);
                assert(res@->Array_0 =~= canonical(self@)->Array_0) by {
                    assert forall|j: int| 0 <= j < items@.len() implies self@->Array_0[j]
                        == items@[j]@ by {}
                }
                res
            },
            Json::Object(members) => {
                let ghost inner = canonical_values(self@->Object_0);
                let mut sorted: Vec<(String, Json)> = Vec::new();
                let mut i: usize = 0;
                assert(models(sorted@) =~= sorted_members(inner, 0));
                assert(self@->Object_0.len() == members@.len());
                while i < members.len()
                    invariant
                        i <= members.len(),
                        self == Json::Object(*members),
                        inner.len() == members@.len(),
                        forall|j: int|
                            0 <= j < members@.len() ==> (#[trigger] inner[j]) == (
                                members@[j].0@,
                                canonical(members@[j].1@),
                            ),
                        models(sorted@) == sorted_members(inner, i as nat),
                    decreases members.len() - i,
                {
                    assert(self->Object_0 == *members);
                    let value = members[i].1.canonical();
                    put_member(&mut sorted, members[i].0.clone(), value);
                    i = i + 1;
                }
                let res = Json::Object(sorted);
                assert(res@->Object_0 =~= models(sorted@));
                res
            },
            _ => self.duplicate(),
        }
    }
}

} // verus!
