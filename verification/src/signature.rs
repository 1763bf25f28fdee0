//! Request verification: recomputing the MAC over the canonical form of an
//! inbound request's query parameters and comparing it with the claimed one.
//!
//! The canonical form is the byte sequence the platform signed: every pair
//! except the `hmac` entry, sorted by key in byte-wise lexicographic order,
//! rendered as `key=value` and joined with `&`, all verbatim.

use vstd::prelude::*;
use vstd::multiset::Multiset;
use vstd::string::StringSliceAdditionalSpecFns;
use vstd::utf8::encode_utf8;

use crate::mac::{app_mac, hex_of};
use crate::ShopifyApp;

verus! {

/// The reserved query key that carries the claimed MAC.
pub open spec fn hmac_key() -> Seq<char> {
    "hmac"@
}

/// The character-sequence views of a sequence of string pairs.
pub open spec fn pair_views(q: Seq<(String, String)>) -> Seq<(Seq<char>, Seq<char>)> {
    Seq::new(q.len(), |i: int| (q[i].0@, q[i].1@))
}

/// The claimed MAC: the value of the last pair whose key is `hmac`, if any.
pub open spec fn claimed_mac(q: Seq<(Seq<char>, Seq<char>)>) -> Option<Seq<char>>
    decreases q.len(),
{
    if q.len() == 0 {
        Option::None
    } else if q.last().0 == hmac_key() {
        Option::Some(q.last().1)
    } else {
        claimed_mac(q.drop_last())
    }
}

/// The pairs that take part in the signed message: every pair whose key is
/// not `hmac`, in their original order.
pub open spec fn message_pairs(q: Seq<(Seq<char>, Seq<char>)>) -> Seq<(Seq<char>, Seq<char>)>
    decreases q.len(),
{
    if q.len() == 0 {
        Seq::empty()
    } else if q.last().0 == hmac_key() {
        message_pairs(q.drop_last())
    } else {
        message_pairs(q.drop_last()).push(q.last())
    }
}

/// Byte-wise lexicographic order: the order `str::cmp` induces on the UTF-8
/// bytes of two strings.
pub open spec fn bytes_le(a: Seq<u8>, b: Seq<u8>) -> bool
    decreases a.len(),
{
    if a.len() == 0 {
        true
    } else if b.len() == 0 {
        false
    } else if a.first() < b.first() {
        true
    } else if a.first() > b.first() {
        false
    } else {
        bytes_le(a.drop_first(), b.drop_first())
    }
}

/// Pair order for canonicalization: byte-wise order of the keys.
pub open spec fn key_le(p: (Seq<char>, Seq<char>), q: (Seq<char>, Seq<char>)) -> bool {
    bytes_le(encode_utf8(p.0), encode_utf8(q.0))
}

/// Stable insertion of `p` into a key-sorted sequence: `p` goes after every
/// pair whose key is less than or equal to its own.
pub open spec fn insert_sorted(
    p: (Seq<char>, Seq<char>),
    s: Seq<(Seq<char>, Seq<char>)>,
) -> Seq<(Seq<char>, Seq<char>)>
    decreases s.len(),
{
    if s.len() == 0 {
        seq![p]
    } else if key_le(s.first(), p) {
        seq![s.first()] + insert_sorted(p, s.drop_first())
    } else {
        seq![p] + s
    }
}

/// Stable sort by key: pairs with equal keys keep their original order, as
/// a stable sort leaves them.
pub open spec fn sort_pairs(s: Seq<(Seq<char>, Seq<char>)>) -> Seq<(Seq<char>, Seq<char>)>
    decreases s.len(),
{
    if s.len() == 0 {
        Seq::empty()
    } else {
        insert_sorted(s.last(), sort_pairs(s.drop_last()))
    }
}

/// The bytes one pair contributes to the canonical message: `key=value`.
pub open spec fn pair_bytes(p: (Seq<char>, Seq<char>)) -> Seq<u8> {
    encode_utf8(p.0) + seq![61u8] + encode_utf8(p.1)
}

/// The canonical message of an ordered pair sequence: the pairs rendered as
/// `key=value` and joined with `&`.
pub open spec fn canonical_message(s: Seq<(Seq<char>, Seq<char>)>) -> Seq<u8>
    decreases s.len(),
{
    if s.len() == 0 {
        Seq::empty()
    } else if s.len() == 1 {
        pair_bytes(s[0])
    } else {
        canonical_message(s.drop_last()) + seq![38u8] + pair_bytes(s.last())
    }
}

/// The byte sequence the platform signed for the query `q`: its message
/// pairs, key-sorted, in canonical form.
pub open spec fn signed_message(q: Seq<(Seq<char>, Seq<char>)>) -> Seq<u8> {
    canonical_message(sort_pairs(message_pairs(q)))
}

/// Whether the query `q` carries a valid signature under `secret`: it has an
/// `hmac` entry, at least one other pair, and the claimed value equals the
/// lowercase hex MAC of the canonical message. Anything malformed is simply
/// invalid.
pub open spec fn signature_valid(q: Seq<(Seq<char>, Seq<char>)>, secret: Seq<char>) -> bool {
    match claimed_mac(q) {
        Option::None => false,
        Option::Some(claimed) => message_pairs(q).len() > 0 && claimed == hex_of(
            app_mac(secret, signed_message(q)),
        ),
    }
}

/// The byte-wise order relates every sequence to itself.
proof fn lemma_bytes_le_refl(a: Seq<u8>)
    ensures
        bytes_le(a, a),
    decreases a.len(),
{
    if a.len() > 0 {
        lemma_bytes_le_refl(a.drop_first());
    }
}

/// The byte-wise order relates any two sequences one way or the other.
proof fn lemma_bytes_le_total(a: Seq<u8>, b: Seq<u8>)
    ensures
        bytes_le(a, b) || bytes_le(b, a),
    decreases a.len(),
{
    if a.len() > 0 && b.len() > 0 && a.first() == b.first() {
        lemma_bytes_le_total(a.drop_first(), b.drop_first());
    }
}

/// Two sequences each below the other in the byte-wise order are equal.
proof fn lemma_bytes_le_antisym(a: Seq<u8>, b: Seq<u8>)
    requires
        bytes_le(a, b),
        bytes_le(b, a),
    ensures
        a == b,
    decreases a.len(),
{
    if a.len() == 0 {
        assert(a =~= b);
    } else {
        assert(b.len() > 0);
        assert(a.first() == b.first());
        lemma_bytes_le_antisym(a.drop_first(), b.drop_first());
        assert(a.drop_first() == b.drop_first());
        assert(a.drop_first().len() == a.len() - 1);
        assert(b.drop_first().len() == b.len() - 1);
        assert(a.len() == b.len());
        assert forall|i: int| 0 <= i < a.len() implies a[i] == b[i] by {
            if i > 0 {
                assert(a[i] == a.drop_first()[i - 1]);
                assert(b[i] == b.drop_first()[i - 1]);
            }
        }
        assert(a =~= b);
    }
}

/// The byte-wise order is transitive.
proof fn lemma_bytes_le_trans(a: Seq<u8>, b: Seq<u8>, c: Seq<u8>)
    requires
        bytes_le(a, b),
        bytes_le(b, c),
    ensures
        bytes_le(a, c),
    decreases a.len(),
{
    if a.len() > 0 && b.len() > 0 && c.len() > 0 {
        if a.first() == b.first() && b.first() == c.first() {
            lemma_bytes_le_trans(a.drop_first(), b.drop_first(), c.drop_first());
        }
    }
}

/// UTF-8 encoding is injective: equal encodings come from equal texts.
proof fn lemma_encode_utf8_injective(a: Seq<char>, b: Seq<char>)
    requires
        encode_utf8(a) == encode_utf8(b),
    ensures
        a == b,
{
    vstd::utf8::encode_utf8_decode_utf8(a);
    vstd::utf8::encode_utf8_decode_utf8(b);
}

/// A key-sorted sequence of pairs.
pub open spec fn sorted_pairs(s: Seq<(Seq<char>, Seq<char>)>) -> bool {
    forall|i: int, j: int| 0 <= i < j < s.len() ==> key_le(#[trigger] s[i], #[trigger] s[j])
}

/// Stable insertion into a key-sorted sequence keeps it sorted and adds the
/// inserted pair to its contents.
proof fn lemma_insert_sorted_ensures(p: (Seq<char>, Seq<char>), s: Seq<(Seq<char>, Seq<char>)>)
    requires
        sorted_pairs(s),
    ensures
        sorted_pairs(insert_sorted(p, s)),
        insert_sorted(p, s).to_multiset() == s.to_multiset().insert(p),
    decreases s.len(),
{
    broadcast use vstd::seq_lib::group_to_multiset_ensures;
    broadcast use vstd::multiset::group_multiset_axioms;

    let out = insert_sorted(p, s);
    if s.len() == 0 {
        assert(seq![p] =~= Seq::<(Seq<char>, Seq<char>)>::empty().push(p));
        assert(out.to_multiset() =~= s.to_multiset().insert(p));
    } else if key_le(s.first(), p) {
        assert(sorted_pairs(s.drop_first())) by {
            assert(forall|i: int|
                0 <= i < s.drop_first().len() ==> s.drop_first()[i] == s[i + 1]);
        }
        lemma_insert_sorted_ensures(p, s.drop_first());
        let tail = insert_sorted(p, s.drop_first());
        assert(out =~= seq![s.first()] + tail);
        // contents
        assert(s =~= seq![s.first()] + s.drop_first());
        vstd::seq_lib::lemma_multiset_commutative(seq![s.first()], tail);
        vstd::seq_lib::lemma_multiset_commutative(seq![s.first()], s.drop_first());
        assert(out.to_multiset() =~= s.to_multiset().insert(p));
        // order: the head is below everything that follows it
        assert forall|j: int| 0 <= j < tail.len() implies key_le(s.first(), #[trigger] tail[j]) by {
            assert(tail.to_multiset().contains(tail[j]));
            if tail[j] == p {
            } else {
                assert(s.drop_first().to_multiset().contains(tail[j]));
                let k = choose|k: int|
                    0 <= k < s.drop_first().len() && s.drop_first()[k] == tail[j];
                assert(s[k + 1] == tail[j]);
                assert(key_le(s[0], s[k + 1]));
            }
        }
        assert forall|i: int, j: int| 0 <= i < j < out.len() implies key_le(
            #[trigger] out[i],
            #[trigger] out[j],
        ) by {
            if i == 0 {
                assert(out[j] == tail[j - 1]);
                assert(out[0] == s.first());
            } else {
                assert(out[i] == tail[i - 1] && out[j] == tail[j - 1]);
            }
        }
    } else {
        assert(out =~= seq![p] + s);
        vstd::seq_lib::lemma_multiset_commutative(seq![p], s);
        assert(out.to_multiset() =~= s.to_multiset().insert(p));
        lemma_bytes_le_total(encode_utf8(s.first().0), encode_utf8(p.0));
        assert(key_le(p, s.first()));
        assert forall|i: int, j: int| 0 <= i < j < out.len() implies key_le(
            #[trigger] out[i],
            #[trigger] out[j],
        ) by {
            if i == 0 {
                assert(out[j] == s[j - 1]);
                if j == 1 {
                    assert(key_le(p, s.first()));
                } else {
                    assert(key_le(s[0], s[j - 1]));
                    lemma_bytes_le_trans(
                        encode_utf8(p.0),
                        encode_utf8(s[0].0),
                        encode_utf8(s[j - 1].0),
                    );
                }
            } else {
                assert(out[i] == s[i - 1] && out[j] == s[j - 1]);
            }
        }
    }
}

/// The stable sort produces a key-sorted permutation of its input.
pub proof fn lemma_sort_pairs_ensures(s: Seq<(Seq<char>, Seq<char>)>)
    ensures
        sorted_pairs(sort_pairs(s)),
        sort_pairs(s).to_multiset() == s.to_multiset(),
    decreases s.len(),
{
    broadcast use vstd::seq_lib::group_to_multiset_ensures;

    if s.len() > 0 {
        lemma_sort_pairs_ensures(s.drop_last());
        lemma_insert_sorted_ensures(s.last(), sort_pairs(s.drop_last()));
        assert(s =~= s.drop_last().push(s.last()));
    }
}

/// The pairs whose key is `hmac`, in their original order.
pub open spec fn hmac_entries(q: Seq<(Seq<char>, Seq<char>)>) -> Seq<(Seq<char>, Seq<char>)>
    decreases q.len(),
{
    if q.len() == 0 {
        Seq::empty()
    } else if q.last().0 == hmac_key() {
        hmac_entries(q.drop_last()).push(q.last())
    } else {
        hmac_entries(q.drop_last())
    }
}

/// Pairwise-distinct keys.
pub open spec fn distinct_keys(s: Seq<(Seq<char>, Seq<char>)>) -> bool {
    forall|i: int, j: int| 0 <= i < j < s.len() ==> s[i].0 != s[j].0
}

/// The claimed MAC is the value of the last `hmac` entry, if any.
proof fn lemma_claimed_from_entries(q: Seq<(Seq<char>, Seq<char>)>)
    ensures
        hmac_entries(q).len() == 0 ==> claimed_mac(q) is None,
        hmac_entries(q).len() > 0 ==> claimed_mac(q) == Option::Some(hmac_entries(q).last().1),
    decreases q.len(),
{
    if q.len() > 0 {
        lemma_claimed_from_entries(q.drop_last());
    }
}

/// The message pairs and the `hmac` entries split the input's contents by
/// key.
proof fn lemma_partition_multisets(q: Seq<(Seq<char>, Seq<char>)>)
    ensures
        message_pairs(q).to_multiset() == q.to_multiset().filter(
            (|p: (Seq<char>, Seq<char>)| p.0 != hmac_key()),
        ),
        hmac_entries(q).to_multiset() == q.to_multiset().filter(
            (|p: (Seq<char>, Seq<char>)| p.0 == hmac_key()),
        ),
    decreases q.len(),
{
    broadcast use vstd::seq_lib::group_to_multiset_ensures;
    broadcast use vstd::multiset::group_multiset_axioms;

    let keep = (|p: (Seq<char>, Seq<char>)| p.0 != hmac_key());
    let toss = (|p: (Seq<char>, Seq<char>)| p.0 == hmac_key());
    if q.len() == 0 {
        assert(q.to_multiset() =~= Multiset::<(Seq<char>, Seq<char>)>::empty());
        assert(message_pairs(q).to_multiset() =~= q.to_multiset().filter(keep));
        assert(hmac_entries(q).to_multiset() =~= q.to_multiset().filter(toss));
    } else {
        let r = q.drop_last();
        let p = q.last();
        lemma_partition_multisets(r);
        assert(q =~= r.push(p));
        assert(q.to_multiset() == r.to_multiset().insert(p));
        if toss(p) {
            assert(hmac_entries(q).to_multiset() == hmac_entries(r).to_multiset().insert(p));
            assert(r.to_multiset().filter(toss).insert(p) =~= q.to_multiset().filter(toss));
            assert(r.to_multiset().filter(keep) =~= q.to_multiset().filter(keep));
        } else {
            assert(message_pairs(q).to_multiset() == message_pairs(r).to_multiset().insert(p));
            assert(r.to_multiset().filter(keep).insert(p) =~= q.to_multiset().filter(keep));
            assert(r.to_multiset().filter(toss) =~= q.to_multiset().filter(toss));
        }
    }
}

/// Distinct keys survive any reordering of the pairs.
proof fn lemma_distinct_keys_permutation(s: Seq<(Seq<char>, Seq<char>)>, t: Seq<
    (Seq<char>, Seq<char>),
>)
    requires
        distinct_keys(s),
        s.to_multiset() == t.to_multiset(),
    ensures
        distinct_keys(t),
{
    broadcast use vstd::seq_lib::group_to_multiset_ensures;
    broadcast use vstd::multiset::group_multiset_axioms;

    assert forall|i: int, j: int| 0 <= i < j < t.len() implies t[i].0 != t[j].0 by {
        if t[i].0 == t[j].0 {
            if t[i] == t[j] {
                let tr = t.remove(j);
                assert(tr.to_multiset() == t.to_multiset().remove(t[j]));
                assert(tr[i] == t[i]);
                assert(tr.contains(t[i]));
                assert(tr.to_multiset().count(t[i]) > 0);
                assert(t.to_multiset().count(t[i]) >= 2);
                assert(s.to_multiset().count(t[i]) >= 2);
                assert(s.contains(t[i]));
                let a = choose|a: int| 0 <= a < s.len() && s[a] == t[i];
                let sr = s.remove(a);
                assert(sr.to_multiset() == s.to_multiset().remove(s[a]));
                assert(sr.to_multiset().count(t[i]) >= 1);
                assert(sr.contains(t[i]));
                let b = choose|b: int| 0 <= b < sr.len() && sr[b] == t[i];
                if b < a {
                    assert(s[b] == sr[b]);
                    assert(s[b].0 == s[a].0);
                } else {
                    assert(s[b + 1] == sr[b]);
                    assert(s[b + 1].0 == s[a].0);
                }
            } else {
                assert(t.contains(t[i]) && t.contains(t[j]));
                assert(t.to_multiset().count(t[i]) > 0);
                assert(t.to_multiset().count(t[j]) > 0);
                assert(s.to_multiset().count(t[i]) > 0);
                assert(s.to_multiset().count(t[j]) > 0);
                assert(s.contains(t[i]) && s.contains(t[j]));
                let a = choose|a: int| 0 <= a < s.len() && s[a] == t[i];
                let b = choose|b: int| 0 <= b < s.len() && s[b] == t[j];
                assert(a != b);
                assert(s[a].0 == s[b].0);
            }
        }
    }
}

/// Two key-sorted sequences with the same contents and pairwise-distinct
/// keys are equal: the canonical order is unique.
proof fn lemma_sorted_distinct_unique(x: Seq<(Seq<char>, Seq<char>)>, y: Seq<
    (Seq<char>, Seq<char>),
>)
    requires
        sorted_pairs(x),
        sorted_pairs(y),
        distinct_keys(x),
        x.to_multiset() == y.to_multiset(),
    ensures
        x == y,
    decreases x.len(),
{
    broadcast use vstd::seq_lib::group_to_multiset_ensures;
    broadcast use vstd::multiset::group_multiset_axioms;

    assert(x.to_multiset().len() == x.len());
    assert(y.to_multiset().len() == y.len());
    assert(x.len() == y.len());
    if x.len() == 0 {
        assert(x =~= y);
    } else {
        assert(y.to_multiset().contains(y[0]));
        assert(x.contains(y[0]));
        let i = choose|i: int| 0 <= i < x.len() && x[i] == y[0];
        assert(x.to_multiset().contains(x[0]));
        assert(y.contains(x[0]));
        let j = choose|j: int| 0 <= j < y.len() && y[j] == x[0];
        if j > 0 {
            assert(key_le(y[0], y[j]));
        } else {
            lemma_bytes_le_refl(encode_utf8(y[0].0));
        }
        assert(key_le(y[0], x[0]));
        if i > 0 {
            assert(key_le(x[0], x[i]));
        } else {
            lemma_bytes_le_refl(encode_utf8(x[0].0));
        }
        assert(key_le(x[0], y[0]));
        lemma_bytes_le_antisym(encode_utf8(x[0].0), encode_utf8(y[0].0));
        lemma_encode_utf8_injective(x[0].0, y[0].0);
        assert(x[0].0 == y[0].0);
        assert(i == 0);
        assert(x[0] == y[0]);
        let xr = x.drop_first();
        let yr = y.drop_first();
        assert(x.remove(0) =~= xr);
        assert(y.remove(0) =~= yr);
        assert(xr.to_multiset() == x.to_multiset().remove(x[0]));
        assert(yr.to_multiset() == y.to_multiset().remove(y[0]));
        assert(sorted_pairs(xr) && distinct_keys(xr)) by {
            assert(forall|k: int| 0 <= k < xr.len() ==> xr[k] == x[k + 1]);
        }
        assert(sorted_pairs(yr)) by {
            assert(forall|k: int| 0 <= k < yr.len() ==> yr[k] == y[k + 1]);
        }
        lemma_sorted_distinct_unique(xr, yr);
        assert forall|k: int| 0 <= k < x.len() implies x[k] == y[k] by {
            if k > 0 {
                assert(x[k] == xr[k - 1]);
                assert(y[k] == yr[k - 1]);
            }
        }
        assert(x =~= y);
    }
}

/// Round trip: a query signed with the hex MAC of its own canonical message,
/// appended as its `hmac` entry, verifies under the same secret.
pub proof fn lemma_round_trip(q: Seq<(Seq<char>, Seq<char>)>, secret: Seq<char>)
    requires
        message_pairs(q).len() > 0,
    ensures
        signature_valid(
            q.push((hmac_key(), hex_of(app_mac(secret, signed_message(q))))),
            secret,
        ),
{
    let tag = hex_of(app_mac(secret, signed_message(q)));
    let q2 = q.push((hmac_key(), tag));
    assert(q2.drop_last() =~= q);
    assert(q2.last() == (hmac_key(), tag));
    assert(claimed_mac(q2) == Option::Some(tag));
    assert(message_pairs(q2) == message_pairs(q));
}

/// Order independence: permuting the query parameters does not change the
/// verdict, provided the message keys are pairwise distinct and at most one
/// pair carries the `hmac` key.
pub proof fn lemma_order_independence(
    q1: Seq<(Seq<char>, Seq<char>)>,
    q2: Seq<(Seq<char>, Seq<char>)>,
    secret: Seq<char>,
)
    requires
        q1.to_multiset() == q2.to_multiset(),
        distinct_keys(message_pairs(q1)),
        hmac_entries(q1).len() <= 1,
    ensures
        signature_valid(q1, secret) == signature_valid(q2, secret),
{
    broadcast use vstd::seq_lib::group_to_multiset_ensures;

    lemma_partition_multisets(q1);
    lemma_partition_multisets(q2);
    let m1 = message_pairs(q1);
    let m2 = message_pairs(q2);
    let h1 = hmac_entries(q1);
    let h2 = hmac_entries(q2);
    assert(m1.to_multiset() == m2.to_multiset());
    assert(h1.to_multiset() == h2.to_multiset());
    assert(h1.to_multiset().len() == h1.len());
    assert(h2.to_multiset().len() == h2.len());
    assert(m1.to_multiset().len() == m1.len());
    assert(m2.to_multiset().len() == m2.len());
    assert(h1.len() == h2.len());
    assert(m1.len() == m2.len());
    lemma_claimed_from_entries(q1);
    lemma_claimed_from_entries(q2);
    if h1.len() == 1 {
        assert(h2.to_multiset().contains(h2[0]));
        assert(h1.contains(h2[0]));
        let k = choose|k: int| 0 <= k < h1.len() && h1[k] == h2[0];
        assert(k == 0);
        assert(h1.last() == h2.last());
    }
    assert(claimed_mac(q1) == claimed_mac(q2));
    lemma_sort_pairs_ensures(m1);
    lemma_sort_pairs_ensures(m2);
    lemma_distinct_keys_permutation(m1, sort_pairs(m1));
    lemma_sorted_distinct_unique(sort_pairs(m1), sort_pairs(m2));
    assert(signed_message(q1) == signed_message(q2));
}

/// Fail closed: a query with no `hmac` entry, and one whose every pair is an
/// `hmac` entry (in particular, an empty one), are both invalid.
pub proof fn lemma_fail_closed(q: Seq<(Seq<char>, Seq<char>)>, secret: Seq<char>)
    requires
        claimed_mac(q) is None || message_pairs(q).len() == 0,
    ensures
        !signature_valid(q, secret),
{
}

fn le_bytes(a: &[u8], b: &[u8]) -> (r: bool)
    ensures
        r == bytes_le(a@, b@),
{
    let mut i: usize = 0;
    proof {
        assert(a@.skip(0) =~= a@);
        assert(b@.skip(0) =~= b@);
    }
    loop
        invariant
            i <= a@.len(),
            i <= b@.len(),
            bytes_le(a@, b@) == bytes_le(a@.skip(i as int), b@.skip(i as int)),
        decreases a@.len() - i,
    {
        if i == a.len() {
            return true;
        }
        if i == b.len() {
            return false;
        }
        let x = a[i];
        let y = b[i];
        proof {
            assert(a@.skip(i as int).first() == a@[i as int]);
            assert(a@.skip(i as int).drop_first() =~= a@.skip(i + 1));
            assert(b@.skip(i as int).drop_first() =~= b@.skip(i + 1));
        }
        if x < y {
            return true;
        }
        if x > y {
            return false;
        }
        i += 1;
    }
}

/// Compares two strings byte for byte. For equal-length inputs every
/// position is examined and folded into one accumulator, so the time taken
/// does not depend on where the strings first differ: the digest check this
/// serves must not leak the position of a mismatch.
fn eq_constant_time(a: &str, b: &str) -> (r: bool)
    ensures
        r == (a@ == b@),
{
    let x = a.as_bytes();
    let y = b.as_bytes();
    if x.len() != y.len() {
        proof {
            if a@ == b@ {
                assert(x@ == y@);
            }
        }
        return false;
    }
    let mut diff: u8 = 0;
    let mut i: usize = 0;
    while i < x.len()
        invariant
            i <= x@.len(),
            x@.len() == y@.len(),
            x@ == encode_utf8(a@),
            y@ == encode_utf8(b@),
            (diff == 0) <==> (forall|j: int| 0 <= j < i ==> x@[j] == y@[j]),
        decreases x@.len() - i,
    {
        let xv = x[i];
        let yv = y[i];
        let ghost prior = diff;
        diff = diff | (xv ^ yv);
        proof {
            assert(((prior | (xv ^ yv)) == 0) == (prior == 0 && xv == yv)) by (bit_vector);
        }
        i += 1;
    }
    let r = diff == 0;
    proof {
        if r {
            assert(x@ =~= y@);
            lemma_encode_utf8_injective(a@, b@);
        } else {
            if a@ == b@ {
                assert(x@ == y@);
                assert(false);
            }
        }
    }
    r
}

fn key_le_exec(a: &String, b: &String) -> (r: bool)
    ensures
        r == bytes_le(encode_utf8(a@), encode_utf8(b@)),
{
    le_bytes(a.as_str().as_bytes(), b.as_str().as_bytes())
}

/// Inserting at the first position whose key exceeds `p`'s produces exactly
/// the stable insertion.
proof fn lemma_insert_sorted_at(p: (Seq<char>, Seq<char>), s: Seq<(Seq<char>, Seq<char>)>, j: int)
    requires
        0 <= j <= s.len(),
        forall|k: int| 0 <= k < j ==> key_le(#[trigger] s[k], p),
        j < s.len() ==> !key_le(s[j], p),
    ensures
        insert_sorted(p, s) == s.subrange(0, j) + seq![p] + s.subrange(j, s.len() as int),
    decreases s.len(),
{
    if s.len() == 0 {
        assert(insert_sorted(p, s) =~= s.subrange(0, j) + seq![p] + s.subrange(
            j,
            s.len() as int,
        ));
    } else if j == 0 {
        assert(!key_le(s.first(), p));
        assert(s.subrange(0, 0) =~= Seq::<(Seq<char>, Seq<char>)>::empty());
        assert(s.subrange(0, s.len() as int) =~= s);
        assert(insert_sorted(p, s) =~= s.subrange(0, j) + seq![p] + s.subrange(
            j,
            s.len() as int,
        ));
    } else {
        assert(key_le(s.first(), p)) by {
            assert(s[0] == s.first());
        }
        let t = s.drop_first();
        assert(forall|k: int| 0 <= k < j - 1 ==> key_le(#[trigger] t[k], p)) by {
            assert(forall|k: int| 0 <= k < j - 1 ==> t[k] == s[k + 1]);
        }
        lemma_insert_sorted_at(p, t, j - 1);
        assert(insert_sorted(p, s) =~= s.subrange(0, j) + seq![p] + s.subrange(
            j,
            s.len() as int,
        ));
    }
}

/// Inserts `p` into the key-sorted vector `out`, after every pair whose key
/// is less than or equal to `p`'s.
fn insert_pair(out: &mut Vec<(String, String)>, p: (String, String))
    ensures
        pair_views(final(out)@) == insert_sorted((p.0@, p.1@), pair_views(old(out)@)),
{
    let ghost sv = pair_views(out@);
    let ghost pv = (p.0@, p.1@);
    let mut j: usize = 0;
    loop
        invariant
            j <= out@.len(),
            sv == pair_views(out@),
            sv.len() == out@.len(),
            pv == (p.0@, p.1@),
            forall|k: int| 0 <= k < j ==> key_le(#[trigger] sv[k], pv),
        ensures
            j <= sv.len(),
            forall|k: int| 0 <= k < j ==> key_le(#[trigger] sv[k], pv),
            j < sv.len() ==> !key_le(sv[j as int], pv),
        decreases out@.len() - j,
    {
        if j == out.len() {
            break ;
        }
        proof {
            assert(sv[j as int] == (out@[j as int].0@, out@[j as int].1@));
        }
        let cont = key_le_exec(&out[j].0, &p.0);
        proof {
            assert(cont == key_le(sv[j as int], pv));
        }
        if !cont {
            break ;
        }
        j += 1;
    }
    proof {
        lemma_insert_sorted_at(pv, sv, j as int);
    }
    out.insert(j, p);
    proof {
        assert(pair_views(out@) =~= sv.subrange(0, j as int) + seq![pv] + sv.subrange(
            j as int,
            sv.len() as int,
        ));
    }
}

/// Appends the UTF-8 bytes of `s` to `out`.
fn push_str_bytes(out: &mut Vec<u8>, s: &str)
    ensures
        final(out)@ == old(out)@ + encode_utf8(s@),
{
    let b = s.as_bytes();
    let mut i: usize = 0;
    while i < b.len()
        invariant
            i <= b@.len(),
            b@ == s.spec_bytes(),
            out@ == old(out)@ + b@.subrange(0, i as int),
        decreases b@.len() - i,
    {
        out.push(b[i]);
        proof {
            assert(old(out)@ + b@.subrange(0, i as int) + seq![b@[i as int]] =~= old(out)@
                + b@.subrange(0, i + 1));
        }
        i += 1;
    }
    proof {
        assert(b@.subrange(0, b@.len() as int) =~= b@);
    }
}

/// Renders the ordered pairs as `key=value` joined by `&`.
fn canonical_bytes(v: &Vec<(String, String)>) -> (r: Vec<u8>)
    ensures
        r@ == canonical_message(pair_views(v@)),
{
    let ghost sv = pair_views(v@);
    let mut out: Vec<u8> = Vec::new();
    let mut i: usize = 0;
    while i < v.len()
        invariant
            i <= v@.len(),
            sv == pair_views(v@),
            sv.len() == v@.len(),
            out@ == canonical_message(sv.subrange(0, i as int)),
        decreases v@.len() - i,
    {
        let ghost before = out@;
        if i > 0 {
            out.push(38);
        }
        push_str_bytes(&mut out, v[i].0.as_str());
        out.push(61);
        push_str_bytes(&mut out, v[i].1.as_str());
        proof {
            let pre = sv.subrange(0, i as int);
            let cur = sv.subrange(0, i + 1);
            assert(cur.drop_last() =~= pre);
            assert(cur.last() == sv[i as int]);
            if i == 0 {
                assert(out@ =~= pair_bytes(sv[0]));
                assert(cur.len() == 1);
                assert(cur[0] == cur.last());
            } else {
                assert(out@ =~= canonical_message(pre) + seq![38u8] + pair_bytes(cur.last()));
            }
        }
        i += 1;
    }
    proof {
        assert(sv.subrange(0, sv.len() as int) =~= sv);
    }
    out
}

impl ShopifyApp {
    /// Decides whether `query_params` carries a valid signature under the
    /// shared secret. The claimed MAC is the value of the `hmac` entry; the
    /// remaining pairs, sorted by key and joined as `key=value` with `&`,
    /// are signed and the tags compared in constant time. A query with no
    /// `hmac` entry or with no other pair is invalid; nothing panics.
    pub fn valid_hmac(&self, query_params: &Vec<(String, String)>) -> (r: bool)
        ensures
            r == signature_valid(pair_views(query_params@), self.credentials.secret@),
    {
        let ghost qv = pair_views(query_params@);
        let hk: String = "hmac".to_owned();
        let mut claimed: Option<String> = Option::None;
        let mut message: Vec<(String, String)> = Vec::new();
        let mut i: usize = 0;
        while i < query_params.len()
            invariant
                i <= query_params@.len(),
                qv == pair_views(query_params@),
                qv.len() == query_params@.len(),
                hk@ == hmac_key(),
                pair_views(message@) == message_pairs(qv.subrange(0, i as int)),
                match claimed {
                    Option::None => claimed_mac(qv.subrange(0, i as int)) is None,
                    Option::Some(c) => claimed_mac(qv.subrange(0, i as int)) == Option::Some(c@),
                },
            decreases query_params@.len() - i,
        {
            let ghost pre = qv.subrange(0, i as int);
            let ghost cur = qv.subrange(0, i + 1);
            proof {
                assert(cur.drop_last() =~= pre);
                assert(cur.last() == qv[i as int]);
            }
            let p = &query_params[i];
            if p.0 == hk {
                claimed = Option::Some(p.1.clone());
            } else {
                message.push((p.0.clone(), p.1.clone()));
                proof {
                    assert(pair_views(message@) =~= message_pairs(pre).push(cur.last()));
                }
            }
            i += 1;
        }
        proof {
            assert(qv.subrange(0, qv.len() as int) =~= qv);
        }
        let claimed_s = match claimed {
            Option::None => {
                return false;
            },
            Option::Some(c) => c,
        };
        if message.len() == 0 {
            return false;
        }
        let mut sorted: Vec<(String, String)> = Vec::new();
        let ghost mv = pair_views(message@);
        let mut k: usize = 0;
        while k < message.len()
            invariant
                k <= message@.len(),
                mv == pair_views(message@),
                mv.len() == message@.len(),
                pair_views(sorted@) == sort_pairs(mv.subrange(0, k as int)),
            decreases message@.len() - k,
        {
            let ghost pre = mv.subrange(0, k as int);
            let ghost cur = mv.subrange(0, k + 1);
            proof {
                assert(cur.drop_last() =~= pre);
                assert(cur.last() == mv[k as int]);
            }
            let q = &message[k];
            insert_pair(&mut sorted, (q.0.clone(), q.1.clone()));
            k += 1;
        }
        proof {
            assert(mv.subrange(0, mv.len() as int) =~= mv);
        }
        let canon = canonical_bytes(&sorted);
        let digest = self.generate_hmac_hex(canon.as_slice());
        eq_constant_time(digest.as_str(), claimed_s.as_str())
    }
}

} // verus!
