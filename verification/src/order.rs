//! Byte-wise lexicographic order on event names, the order in which `String`
//! values compare, and a sort of event names by it.

use vstd::prelude::*;
use vstd::utf8::encode_utf8;

verus! {

/// `a` and `b` agree on their first `k` bytes.
pub open spec fn common_prefix(a: Seq<u8>, b: Seq<u8>, k: int) -> bool {
    &&& 0 <= k <= a.len()
    &&& k <= b.len()
    &&& forall|j: int| 0 <= j < k ==> a[j] == b[j]
}

/// `a` comes strictly before `b` in lexicographic byte order: at the first
/// position where they differ `a` holds the smaller byte, or `a` is a proper
/// prefix of `b`.
pub open spec fn bytes_before(a: Seq<u8>, b: Seq<u8>) -> bool {
    exists|k: int|
        #[trigger] common_prefix(a, b, k) && ((k == a.len() && k < b.len()) || (k < a.len() && k
            < b.len() && a[k] < b[k]))
}

/// The order of two names as strings: that of their UTF-8 encodings.
pub open spec fn name_before(a: Seq<char>, b: Seq<char>) -> bool {
    bytes_before(encode_utf8(a), encode_utf8(b))
}

/// Each name comes no later than the ones after it.
pub open spec fn sorted_names(s: Seq<Seq<char>>) -> bool {
    forall|i: int, j: int| 0 <= i < j < s.len() ==> !name_before(#[trigger] s[j], #[trigger] s[i])
}

/// The views of a sequence of strings.
pub open spec fn string_views(s: Seq<String>) -> Seq<Seq<char>> {
    s.map_values(|x: String| x@)
}

/// The byte order is transitive.
pub proof fn lemma_bytes_before_transitive(a: Seq<u8>, b: Seq<u8>, c: Seq<u8>)
    requires
        bytes_before(a, b),
        bytes_before(b, c),
    ensures
        bytes_before(a, c),
{
    let k1 = choose|k: int|
        #[trigger] common_prefix(a, b, k) && ((k == a.len() && k < b.len()) || (k < a.len() && k
            < b.len() && a[k] < b[k]));
    let k2 = choose|k: int|
        #[trigger] common_prefix(b, c, k) && ((k == b.len() && k < c.len()) || (k < b.len() && k
            < c.len() && b[k] < c[k]));
    if k1 <= k2 {
        assert(common_prefix(a, c, k1));
    } else {
        assert(common_prefix(a, c, k2));
    }
}

/// The byte order is irreflexive.
pub proof fn lemma_bytes_before_irreflexive(a: Seq<u8>)
    ensures
        !bytes_before(a, a),
{
}

/// Where two byte strings first differ at position `k`, inside both, the one
/// with the smaller byte there comes first, and only that one.
pub proof fn law_bytes_before_first_difference(a: Seq<u8>, b: Seq<u8>, k: int)
    requires
        0 <= k < a.len(),
        k < b.len(),
        forall|j: int| 0 <= j < k ==> a[j] == b[j],
        a[k] != b[k],
    ensures
        bytes_before(a, b) <==> a[k] < b[k],
        bytes_before(b, a) <==> b[k] < a[k],
{
    assert(common_prefix(a, b, k));
    assert(common_prefix(b, a, k));
    if bytes_before(a, b) {
        let m = choose|m: int|
            #[trigger] common_prefix(a, b, m) && ((m == a.len() && m < b.len()) || (m < a.len() && m
                < b.len() && a[m] < b[m]));
        if m > k {
            assert(a[k] == b[k]);
        }
    }
    if bytes_before(b, a) {
        let m = choose|m: int|
            #[trigger] common_prefix(b, a, m) && ((m == b.len() && m < a.len()) || (m < b.len() && m
                < a.len() && b[m] < a[m]));
        if m > k {
            assert(a[k] == b[k]);
        }
    }
}

/// A proper prefix comes before the byte strings that extend it, and never
/// after them.
pub proof fn law_bytes_before_prefix(a: Seq<u8>, b: Seq<u8>)
    requires
        a.len() < b.len(),
        forall|j: int| 0 <= j < a.len() ==> a[j] == b[j],
    ensures
        bytes_before(a, b),
        !bytes_before(b, a),
{
    assert(common_prefix(a, b, a.len() as int));
    if bytes_before(b, a) {
        let m = choose|m: int|
            #[trigger] common_prefix(b, a, m) && ((m == b.len() && m < a.len()) || (m < b.len() && m
                < a.len() && b[m] < a[m]));
        assert(a[m] == b[m]);
    }
}

/// Two different byte strings agreeing on their first `k` bytes are ordered
/// one way or the other.
proof fn lemma_bytes_before_total_from(a: Seq<u8>, b: Seq<u8>, k: int)
    requires
        common_prefix(a, b, k),
        a != b,
    ensures
        bytes_before(a, b) || bytes_before(b, a),
    decreases a.len() - k,
{
    assert(common_prefix(b, a, k));
    if k == a.len() && k == b.len() {
        assert(a =~= b);
    } else if k == a.len() || k == b.len() {
    } else if a[k] != b[k] {
    } else {
        assert(common_prefix(a, b, k + 1));
        lemma_bytes_before_total_from(a, b, k + 1);
    }
}

/// The byte order is total: of two different byte strings, one comes first.
pub proof fn law_bytes_before_total(a: Seq<u8>, b: Seq<u8>)
    requires
        a != b,
    ensures
        bytes_before(a, b) || bytes_before(b, a),
{
    assert(common_prefix(a, b, 0));
    lemma_bytes_before_total_from(a, b, 0);
}

/// Distinct names in sorted order are strictly increasing: each comes before
/// every later one.
pub proof fn law_sorted_distinct_is_increasing(s: Seq<Seq<char>>)
    requires
        sorted_names(s),
        s.no_duplicates(),
    ensures
        forall|i: int, j: int| 0 <= i < j < s.len() ==> name_before(#[trigger] s[i], #[trigger] s[j]),
{
    assert forall|i: int, j: int| 0 <= i < j < s.len() implies name_before(
        #[trigger] s[i],
        #[trigger] s[j],
    ) by {
        assert(s[i] != s[j]);
        vstd::utf8::encode_utf8_decode_utf8(s[i]);
        vstd::utf8::encode_utf8_decode_utf8(s[j]);
        law_bytes_before_total(encode_utf8(s[i]), encode_utf8(s[j]));
    }
}

/// Whether `a` comes strictly before `b` in lexicographic byte order.
fn bytes_less(a: &[u8], b: &[u8]) -> (r: bool)
    ensures
        r == bytes_before(a@, b@),
{
    let mut i: usize = 0;
    while i < a.len() && i < b.len() && a[i] == b[i]
        invariant
            i <= a@.len(),
            i <= b@.len(),
            forall|j: int| 0 <= j < i ==> a@[j] == b@[j],
        decreases a@.len() - i,
    {
        i = i + 1;
    }
    let r = if i < a.len() && i < b.len() {
        a[i] < b[i]
    } else {
        i == a.len() && i < b.len()
    };
    proof {
        if r {
            assert(common_prefix(a@, b@, i as int));
        } else {
            assert forall|k: int| #[trigger]
                common_prefix(a@, b@, k) implies !((k == a@.len() && k < b@.len()) || (k < a@.len()
                && k < b@.len() && a@[k] < b@[k])) by {
                if k > i {
                    assert(a@[i as int] == b@[i as int]);
                }
            }
        }
    }
    r
}

/// Whether the name `a` sorts strictly before the name `b`.
fn name_less(a: &String, b: &String) -> (r: bool)
    ensures
        r == name_before(a@, b@),
{
    let sa = a.as_str();
    let sb = b.as_str();
    bytes_less(sa.as_bytes(), sb.as_bytes())
}

/// Sorts distinct names into ascending string order.
pub(crate) fn sort_names(names: Vec<String>) -> (r: Vec<String>)
    requires
        string_views(names@).no_duplicates(),
    ensures
        r@.len() == names@.len(),
        string_views(r@).no_duplicates(),
        sorted_names(string_views(r@)),
        forall|k: Seq<char>| string_views(r@).contains(k) <==> string_views(names@).contains(k),
{
    let mut r: Vec<String> = Vec::new();
    let mut i: usize = 0;
    while i < names.len()
        invariant
            i <= names@.len(),
            string_views(names@).no_duplicates(),
            r@.len() == i,
            string_views(r@).no_duplicates(),
            sorted_names(string_views(r@)),
            forall|k: Seq<char>|
                string_views(r@).contains(k) <==> string_views(names@.take(i as int)).contains(k),
        decreases names@.len() - i,
    {
        let x = names[i].clone();
        let mut p: usize = 0;
        while p < r.len() && !name_less(&x, &r[p])
            invariant
                p <= r@.len(),
                forall|q: int| 0 <= q < p ==> !name_before(x@, #[trigger] r@[q]@),
            decreases r@.len() - p,
        {
            p = p + 1;
        }
        let ghost old_r = string_views(r@);
        proof {
            assert(string_views(names@.take(i as int + 1)) =~= string_views(
                names@.take(i as int),
            ).push(x@));
            assert(!string_views(names@.take(i as int)).contains(x@)) by {
                if string_views(names@.take(i as int)).contains(x@) {
                    let q = choose|q: int|
                        0 <= q < i && #[trigger] string_views(names@.take(i as int))[q] == x@;
                    assert(string_views(names@)[q] == string_views(names@)[i as int]);
                }
            }
        }
        r.insert(p, x);
        proof {
            let new_r = string_views(r@);
            assert(new_r =~= old_r.insert(p as int, x@));
            assert forall|a: int, b: int| 0 <= a < b < new_r.len() implies !name_before(
                #[trigger] new_r[b],
                #[trigger] new_r[a],
            ) by {
                if a < p && b == p {
                } else if a < p && b > p {
                    assert(new_r[b] == old_r[b - 1]);
                } else if a == p && b > p {
                    assert(new_r[b] == old_r[b - 1]);
                    assert(p < old_r.len());
                    assert(name_before(x@, old_r[p as int]));
                    if name_before(new_r[b], x@) {
                        if b - 1 > p {
                            lemma_bytes_before_transitive(
                                encode_utf8(new_r[b]),
                                encode_utf8(x@),
                                encode_utf8(old_r[p as int]),
                            );
                        }
                        lemma_bytes_before_irreflexive(encode_utf8(x@));
                    }
                } else if a > p {
                    assert(new_r[a] == old_r[a - 1]);
                    assert(new_r[b] == old_r[b - 1]);
                }
            }
            assert forall|a: int, b: int|
                0 <= a < new_r.len() && 0 <= b < new_r.len() && a != b implies new_r[a]
                != new_r[b] by {
                if a == p {
                    if b < p {
                        assert(old_r.contains(new_r[b]));
                    } else {
                        assert(old_r[b - 1] == new_r[b]);
                        assert(old_r.contains(new_r[b]));
                    }
                } else if b == p {
                    if a < p {
                        assert(old_r.contains(new_r[a]));
                    } else {
                        assert(old_r[a - 1] == new_r[a]);
                        assert(old_r.contains(new_r[a]));
                    }
                }
            }
            let t = string_views(names@.take(i as int));
            let tp = string_views(names@.take(i as int + 1));
            assert(tp =~= t.push(x@));
            assert forall|k: Seq<char>| new_r.contains(k) <==> tp.contains(k) by {
                if tp.contains(k) {
                    let q = choose|q: int| 0 <= q < tp.len() && tp[q] == k;
                    if q < t.len() {
                        assert(t[q] == k);
                        assert(t.contains(k));
                        assert(old_r.contains(k));
                    }
                }
                if t.contains(k) {
                    let q = choose|q: int| 0 <= q < t.len() && t[q] == k;
                    assert(tp[q] == k);
                }
                if k == x@ {
                    assert(tp[t.len() as int] == k);
                }
                if new_r.contains(k) {
                    let q = choose|q: int| 0 <= q < new_r.len() && new_r[q] == k;
                    if q < p {
                        assert(old_r[q] == k);
                    } else if q > p {
                        assert(old_r[q - 1] == k);
                    }
                }
                if old_r.contains(k) {
                    let q = choose|q: int| 0 <= q < old_r.len() && old_r[q] == k;
                    if q < p {
                        assert(new_r[q] == k);
                    } else {
                        assert(new_r[q + 1] == k);
                    }
                }
                if k == x@ {
                    assert(new_r[p as int] == k);
                }
            }
        }
        i = i + 1;
    }
    assert(names@.take(i as int) =~= names@);
    r
}

} // verus!
