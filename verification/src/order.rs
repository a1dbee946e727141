//! The order of strings (`str`'s `Ord`: their UTF-8 bytes, compared
//! lexicographically) and sorted lists of distinct strings.

use vstd::prelude::*;
use crate::relay::{bytes_before, bytes_less};
use crate::table::lemma_push_to_set;
use crate::text::strs;

verus! {

/// String `a` sorts before string `b`.
pub open spec fn text_less(a: Seq<char>, b: Seq<char>) -> bool {
    bytes_less(vstd::utf8::encode_utf8(a), vstd::utf8::encode_utf8(b))
}

/// Each string sorts before every later one: the list is sorted and holds
/// no string twice.
pub open spec fn strictly_sorted(s: Seq<Seq<char>>) -> bool {
    forall|i: int, j: int| 0 <= i < j < s.len() ==> text_less(#[trigger] s[i], #[trigger] s[j])
}

/// No byte string sorts before itself.
pub proof fn lemma_bytes_less_irreflexive(a: Seq<u8>)
    ensures
        !bytes_less(a, a),
    decreases a.len(),
{
    if a.len() > 0 {
        lemma_bytes_less_irreflexive(a.drop_first());
    }
}

/// The byte order is transitive.
pub proof fn lemma_bytes_less_transitive(a: Seq<u8>, b: Seq<u8>, c: Seq<u8>)
    requires
        bytes_less(a, b),
        bytes_less(b, c),
    ensures
        bytes_less(a, c),
    decreases a.len(),
{
    if a.len() > 0 && b.len() > 0 && c.len() > 0 && a[0] == b[0] && b[0] == c[0] {
        lemma_bytes_less_transitive(a.drop_first(), b.drop_first(), c.drop_first());
    }
}

/// Two different byte strings are ordered one way or the other.
pub proof fn lemma_bytes_less_total(a: Seq<u8>, b: Seq<u8>)
    requires
        a != b,
    ensures
        bytes_less(a, b) || bytes_less(b, a),
    decreases a.len(),
{
    if a.len() > 0 && b.len() > 0 && a[0] == b[0] {
        if a.drop_first() =~= b.drop_first() {
            assert(a.len() == b.len());
            assert(a =~= b) by {
                assert forall|i: int| 0 <= i < a.len() implies a[i] == b[i] by {
                    if i > 0 {
                        assert(a[i] == a.drop_first()[i - 1]);
                        assert(b[i] == b.drop_first()[i - 1]);
                    }
                }
            }
        }
        lemma_bytes_less_total(a.drop_first(), b.drop_first());
    } else if a.len() == 0 && b.len() == 0 {
        assert(a =~= b);
    }
}

/// The string order is a strict total order.
pub proof fn lemma_text_less_order(a: Seq<char>, b: Seq<char>, c: Seq<char>)
    ensures
        !text_less(a, a),
        text_less(a, b) && text_less(b, c) ==> text_less(a, c),
        a != b ==> text_less(a, b) || text_less(b, a),
        text_less(a, b) ==> !text_less(b, a),
{
    let ea = vstd::utf8::encode_utf8(a);
    let eb = vstd::utf8::encode_utf8(b);
    let ec = vstd::utf8::encode_utf8(c);
    lemma_bytes_less_irreflexive(ea);
    if text_less(a, b) && text_less(b, c) {
        lemma_bytes_less_transitive(ea, eb, ec);
    }
    if a != b {
        vstd::utf8::encode_utf8_decode_utf8(a);
        vstd::utf8::encode_utf8_decode_utf8(b);
        lemma_bytes_less_total(ea, eb);
    }
    if text_less(a, b) && text_less(b, a) {
        lemma_bytes_less_transitive(ea, eb, ea);
    }
}

/// The sorted list of the distinct strings of a set.
pub open spec fn sorted_seq(set: Set<Seq<char>>) -> Seq<Seq<char>> {
    choose|s: Seq<Seq<char>>| strictly_sorted(s) && s.to_set() == set
}

/// Two sorted lists of distinct strings with the same strings are equal.
pub proof fn lemma_sorted_unique(s: Seq<Seq<char>>, t: Seq<Seq<char>>)
    requires
        strictly_sorted(s),
        strictly_sorted(t),
        s.to_set() == t.to_set(),
    ensures
        s == t,
    decreases s.len(),
{
    if s.len() == 0 {
        if t.len() > 0 {
            assert(t.to_set().contains(t[0]));
        }
        assert(s =~= t);
    } else {
        assert(s.to_set().contains(s[0]));
        assert(t.len() > 0);
        assert(t.to_set().contains(t[0]));
        let i = choose|i: int| 0 <= i < t.len() && t[i] == s[0];
        let j = choose|j: int| 0 <= j < s.len() && s[j] == t[0];
        if i > 0 && j > 0 {
            assert(text_less(t[0], t[i]));
            assert(text_less(s[0], s[j]));
            lemma_text_less_order(s[0], t[0], s[0]);
        } else if i > 0 {
            assert(s[0] == t[0] || j == 0);
        }
        assert(s[0] == t[0]) by {
            if i > 0 {
                assert(j == 0);
            }
        }
        let s1 = s.drop_first();
        let t1 = t.drop_first();
        assert(strictly_sorted(s1)) by {
            assert forall|a: int, b: int| 0 <= a < b < s1.len() implies text_less(#[trigger] s1[a], #[trigger] s1[b]) by {
                assert(s1[a] == s[a + 1] && s1[b] == s[b + 1]);
            }
        }
        assert(strictly_sorted(t1)) by {
            assert forall|a: int, b: int| 0 <= a < b < t1.len() implies text_less(#[trigger] t1[a], #[trigger] t1[b]) by {
                assert(t1[a] == t[a + 1] && t1[b] == t[b + 1]);
            }
        }
        assert(s1.to_set() =~= t1.to_set()) by {
            assert forall|x: Seq<char>| s1.contains(x) implies t1.contains(x) by {
                let a = choose|a: int| 0 <= a < s1.len() && s1[a] == x;
                assert(s[a + 1] == x);
                assert(text_less(s[0], s[a + 1]));
                lemma_text_less_order(x, x, x);
                assert(s.to_set().contains(x));
                assert(t.to_set().contains(x));
                let b = choose|b: int| 0 <= b < t.len() && t[b] == x;
                assert(b != 0);
                assert(t1[b - 1] == x);
            }
            assert forall|x: Seq<char>| t1.contains(x) implies s1.contains(x) by {
                let a = choose|a: int| 0 <= a < t1.len() && t1[a] == x;
                assert(t[a + 1] == x);
                assert(text_less(t[0], t[a + 1]));
                lemma_text_less_order(x, x, x);
                assert(t.to_set().contains(x));
                assert(s.to_set().contains(x));
                let b = choose|b: int| 0 <= b < s.len() && s[b] == x;
                assert(b != 0);
                assert(s1[b - 1] == x);
            }
        }
        lemma_sorted_unique(s1, t1);
        assert(s =~= t) by {
            assert forall|k: int| 0 <= k < s.len() implies s[k] == t[k] by {
                if k > 0 {
                    assert(s[k] == s1[k - 1] && t[k] == t1[k - 1]);
                }
            }
        }
    }
}

/// A sorted list of distinct strings is the sorted list of its set.
pub proof fn lemma_sorted_seq(s: Seq<Seq<char>>)
    requires
        strictly_sorted(s),
    ensures
        sorted_seq(s.to_set()) == s,
{
    let c = sorted_seq(s.to_set());
    assert(strictly_sorted(c) && c.to_set() == s.to_set());
    lemma_sorted_unique(c, s);
}

/// Whether string `a` sorts before string `b`.
pub fn text_before(a: &str, b: &str) -> (r: bool)
    ensures
        r == text_less(a@, b@),
{
    bytes_before(a.as_bytes(), b.as_bytes())
}

/// Adds `x` to a sorted list of distinct strings, at its place, unless it is
/// already there.
pub fn insert_sorted_text(v: &mut Vec<String>, x: String)
    requires
        strictly_sorted(strs(old(v)@)),
    ensures
        strictly_sorted(strs(final(v)@)),
        strs(final(v)@).to_set() == strs(old(v)@).to_set().insert(x@),
{
    let ghost s = strs(v@);
    let mut p: usize = 0;
    while p < v.len() && text_before(v[p].as_str(), x.as_str())
        invariant
            p <= v@.len(),
            s == strs(v@),
            forall|i: int| 0 <= i < p ==> text_less(#[trigger] s[i], x@),
        decreases v@.len() - p,
    {
        p = p + 1;
    }
    if p < v.len() && v[p] == x {
        proof {
            assert(s.contains(x@)) by { assert(s[p as int] == x@); }
            assert(s.to_set().insert(x@) =~= s.to_set());
        }
        return;
    }
    proof {
        if p < s.len() {
            lemma_text_less_order(x@, s[p as int], x@);
            assert(s[p as int] != x@);
            assert(text_less(x@, s[p as int]));
        }
    }
    v.insert(p, x);
    proof {
        let t = strs(v@);
        assert(t =~= s.take(p as int).push(x@) + s.skip(p as int));
        assert forall|i: int, j: int| 0 <= i < j < t.len() implies text_less(#[trigger] t[i], #[trigger] t[j]) by {
            if j < p {
                assert(t[i] == s[i] && t[j] == s[j]);
            } else if j == p {
                assert(t[i] == s[i]);
            } else if i == p {
                assert(t[j] == s[j - 1]);
                if j - 1 > p {
                    lemma_text_less_order(x@, s[p as int], s[j - 1]);
                }
            } else if i < p {
                assert(t[i] == s[i] && t[j] == s[j - 1]);
                if p < s.len() {
                    lemma_text_less_order(s[i], x@, s[p as int]);
                    if j - 1 > p {
                        lemma_text_less_order(s[i], s[p as int], s[j - 1]);
                    }
                }
            } else {
                assert(t[i] == s[i - 1] && t[j] == s[j - 1]);
            }
        }
        assert forall|a: Seq<char>| t.contains(a) <==> s.to_set().insert(x@).contains(a) by {
            if t.contains(a) {
                let k = choose|k: int| 0 <= k < t.len() && t[k] == a;
                if k < p {
                    assert(s[k] == a);
                } else if k > p {
                    assert(s[k - 1] == a);
                }
            }
            if s.contains(a) {
                let k = choose|k: int| 0 <= k < s.len() && s[k] == a;
                if k < p {
                    assert(t[k] == a);
                } else {
                    assert(t[k + 1] == a);
                }
            }
            if a == x@ {
                assert(t[p as int] == a);
            }
        }
        assert(t.to_set() =~= s.to_set().insert(x@));
    }
}

/// The distinct strings of a list, sorted: what `sort` then `dedup` leave.
pub fn sorted_distinct(values: Vec<String>) -> (r: Vec<String>)
    ensures
        strictly_sorted(strs(r@)),
        strs(r@).to_set() == strs(values@).to_set(),
        strs(r@) == sorted_seq(strs(values@).to_set()),
{
    let ghost vs = strs(values@);
    let mut out: Vec<String> = Vec::new();
    let mut i: usize = 0;
    proof {
        assert(strs(out@).to_set() =~= Set::<Seq<char>>::empty());
        assert(vs.take(0).to_set() =~= Set::<Seq<char>>::empty());
    }
    while i < values.len()
        invariant
            i <= values@.len(),
            vs == strs(values@),
            strictly_sorted(strs(out@)),
            strs(out@).to_set() == vs.take(i as int).to_set(),
        decreases values@.len() - i,
    {
        insert_sorted_text(&mut out, values[i].clone());
        proof {
            assert(vs.take(i + 1) =~= vs.take(i as int).push(vs[i as int]));
            lemma_push_to_set(vs.take(i as int), vs[i as int]);
        }
        i = i + 1;
    }
    proof {
        assert(vs.take(values@.len() as int) =~= vs);
        lemma_sorted_seq(strs(out@));
    }
    out
}

} // verus!
