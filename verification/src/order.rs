//! Ordering of texts and of sort keys.
//!
//! Texts compare as `String`s do: character by character, by code point
//! (which is the byte order of their UTF-8 encoding), a proper prefix
//! first. A sort key is two numbers and a text, compared in that order,
//! with the item's position as the last tie-breaker, which makes every
//! sort below stable.
use vstd::prelude::*;

verus! {

/// `a < b` in the order of `String`.
pub open spec fn text_lt(a: Seq<char>, b: Seq<char>) -> bool
    decreases a.len(),
{
    if b.len() == 0 {
        false
    } else if a.len() == 0 {
        true
    } else if a[0] != b[0] {
        a[0] < b[0]
    } else {
        text_lt(a.drop_first(), b.drop_first())
    }
}

/// `text_lt` is irreflexive.
pub proof fn lemma_text_lt_irreflexive(a: Seq<char>)
    ensures
        !text_lt(a, a),
    decreases a.len(),
{
    if a.len() > 0 {
        lemma_text_lt_irreflexive(a.drop_first());
    }
}

/// `text_lt` is asymmetric and total on distinct texts.
pub proof fn lemma_text_lt_total(a: Seq<char>, b: Seq<char>)
    ensures
        text_lt(a, b) ==> !text_lt(b, a),
        a != b ==> text_lt(a, b) || text_lt(b, a),
    decreases a.len(),
{
    if a.len() > 0 && b.len() > 0 {
        lemma_text_lt_total(a.drop_first(), b.drop_first());
        if a != b && a[0] == b[0] {
            assert(a.drop_first() != b.drop_first()) by {
                if a.drop_first() == b.drop_first() {
                    assert(a =~= seq![a[0]] + a.drop_first());
                    assert(b =~= seq![b[0]] + b.drop_first());
                }
            }
        }
    }
    if a != b && a.len() == 0 && b.len() == 0 {
        assert(a =~= b);
    }
}

/// `text_lt` is transitive.
pub proof fn lemma_text_lt_transitive(a: Seq<char>, b: Seq<char>, c: Seq<char>)
    ensures
        text_lt(a, b) && text_lt(b, c) ==> text_lt(a, c),
    decreases a.len(),
{
    if a.len() > 0 && b.len() > 0 && c.len() > 0 {
        lemma_text_lt_transitive(a.drop_first(), b.drop_first(), c.drop_first());
    }
}

/// `text_lt` is a strict total order.
pub proof fn lemma_text_lt_order(a: Seq<char>, b: Seq<char>, c: Seq<char>)
    ensures
        !text_lt(a, a),
        text_lt(a, b) ==> !text_lt(b, a),
        text_lt(a, b) && text_lt(b, c) ==> text_lt(a, c),
        a != b ==> text_lt(a, b) || text_lt(b, a),
{
    lemma_text_lt_irreflexive(a);
    lemma_text_lt_total(a, b);
    lemma_text_lt_transitive(a, b, c);
}

/// `a < b` for texts.
pub fn text_less(a: &[char], b: &[char]) -> (r: bool)
    ensures
        r == text_lt(a@, b@),
{
    let mut i: usize = 0;
    assert(a@.skip(0) =~= a@ && b@.skip(0) =~= b@);
    while i < a.len() && i < b.len() && a[i] == b[i]
        invariant
            i <= a@.len(),
            i <= b@.len(),
            text_lt(a@, b@) == text_lt(a@.skip(i as int), b@.skip(i as int)),
        decreases a@.len() - i,
    {
        proof {
            assert(a@.skip(i as int).drop_first() =~= a@.skip(i + 1));
            assert(b@.skip(i as int).drop_first() =~= b@.skip(i + 1));
        }
        i = i + 1;
    }
    if i == b.len() {
        false
    } else if i == a.len() {
        true
    } else {
        a[i] < b[i]
    }
}

/// What items are sorted by: two numbers and a text.
pub struct SortKey {
    pub major: u64,
    pub minor: u64,
    pub text: Vec<char>,
}

impl View for SortKey {
    type V = (u64, u64, Seq<char>);

    open spec fn view(&self) -> (u64, u64, Seq<char>) {
        (self.major, self.minor, self.text@)
    }
}

/// `a` comes before `b`, positions `ia` and `ib` breaking ties.
pub open spec fn key_lt(a: (u64, u64, Seq<char>), ia: int, b: (u64, u64, Seq<char>), ib: int) -> bool {
    ||| a.0 < b.0
    ||| (a.0 == b.0 && a.1 < b.1)
    ||| (a.0 == b.0 && a.1 == b.1 && text_lt(a.2, b.2))
    ||| (a.0 == b.0 && a.1 == b.1 && a.2 == b.2 && ia < ib)
}

/// The views of a list of keys.
pub open spec fn key_views(keys: Seq<SortKey>) -> Seq<(u64, u64, Seq<char>)> {
    Seq::new(keys.len(), |i: int| keys[i]@)
}

proof fn lemma_key_lt_order(keys: Seq<(u64, u64, Seq<char>)>, x: int, y: int, z: int)
    ensures
        !key_lt(keys[x], x, keys[x], x),
        key_lt(keys[x], x, keys[y], y) && key_lt(keys[y], y, keys[z], z) ==> key_lt(
            keys[x],
            x,
            keys[z],
            z,
        ),
        x != y ==> key_lt(keys[x], x, keys[y], y) || key_lt(keys[y], y, keys[x], x),
{
    lemma_text_lt_order(keys[x].2, keys[y].2, keys[z].2);
    lemma_text_lt_order(keys[y].2, keys[x].2, keys[x].2);
    lemma_text_lt_order(keys[x].2, keys[y].2, keys[y].2);
}

/// `order` lists every position of `keys` once, in key order.
pub open spec fn sorts(keys: Seq<(u64, u64, Seq<char>)>, order: Seq<usize>) -> bool {
    &&& order.len() == keys.len()
    &&& forall|a: int| 0 <= a < order.len() ==> (#[trigger] order[a]) < keys.len()
    &&& forall|a: int, b: int|
        0 <= a < b < order.len() ==> key_lt(
            keys[order[a] as int],
            order[a] as int,
            keys[order[b] as int],
            order[b] as int,
        )
}

/// `sorts` determines the order: the positions are distinct and each is
/// listed.
pub proof fn lemma_sorts_permutation(keys: Seq<(u64, u64, Seq<char>)>, order: Seq<usize>)
    requires
        sorts(keys, order),
    ensures
        forall|a: int, b: int|
            0 <= a < order.len() && 0 <= b < order.len() && a != b ==> order[a] != order[b],
{
    assert forall|a: int, b: int|
        0 <= a < order.len() && 0 <= b < order.len() && a != b implies order[a] != order[b] by {
        let x = order[a] as int;
        lemma_key_lt_order(keys, x, x, x);
    }
}

fn key_less(keys: &Vec<SortKey>, x: usize, y: usize) -> (r: bool)
    requires
        x < keys@.len(),
        y < keys@.len(),
    ensures
        r == key_lt(keys@[x as int]@, x as int, keys@[y as int]@, y as int),
{
    let a = &keys[x];
    let b = &keys[y];
    if a.major != b.major {
        a.major < b.major
    } else if a.minor != b.minor {
        a.minor < b.minor
    } else if text_less(a.text.as_slice(), b.text.as_slice()) {
        true
    } else if text_less(b.text.as_slice(), a.text.as_slice()) {
        false
    } else {
        proof {
            lemma_text_lt_order(a.text@, b.text@, b.text@);
        }
        x < y
    }
}

/// The positions of `keys` in sorted order (a stable sort).
pub fn sort_order(keys: &Vec<SortKey>) -> (r: Vec<usize>)
    ensures
        sorts(key_views(keys@), r@),
{
    let ghost kv = key_views(keys@);
    let mut out: Vec<usize> = Vec::new();
    let mut i: usize = 0;
    while i < keys.len()
        invariant
            i <= keys@.len(),
            kv == key_views(keys@),
            out@.len() == i,
            forall|a: int| 0 <= a < out@.len() ==> (#[trigger] out@[a]) < i,
            forall|a: int, b: int|
                0 <= a < b < out@.len() ==> key_lt(
                    kv[out@[a] as int],
                    out@[a] as int,
                    kv[out@[b] as int],
                    out@[b] as int,
                ),
        decreases keys@.len() - i,
    {
        let mut j: usize = 0;
        while j < out.len() && key_less(keys, out[j], i)
            invariant
                i < keys@.len(),
                kv == key_views(keys@),
                j <= out@.len(),
                forall|a: int| 0 <= a < out@.len() ==> (#[trigger] out@[a]) < i,
                forall|a: int|
                    0 <= a < j ==> key_lt(
                        kv[out@[a] as int],
                        out@[a] as int,
                        kv[i as int],
                        i as int,
                    ),
            decreases out@.len() - j,
        {
            j = j + 1;
        }
        let ghost before = out@;
        out.insert(j, i);
        proof {
            assert(out@ =~= before.insert(j as int, i));
            if j < before.len() {
                lemma_key_lt_order(kv, before[j as int] as int, i as int, i as int);
                assert(key_lt(kv[i as int], i as int, kv[before[j as int] as int], before[j as int] as int));
            }
            assert forall|a: int, b: int| 0 <= a < b < out@.len() implies key_lt(
                kv[out@[a] as int],
                out@[a] as int,
                kv[out@[b] as int],
                out@[b] as int,
            ) by {
                if b < j {
                    assert(out@[a] == before[a] && out@[b] == before[b]);
                } else if b == j {
                    assert(out@[a] == before[a]);
                } else if a == j {
                    assert(out@[b] == before[b - 1]);
                    if b - 1 > j {
                        lemma_key_lt_order(
                            kv,
                            i as int,
                            before[j as int] as int,
                            before[b - 1] as int,
                        );
                    }
                } else if a < j {
                    assert(out@[a] == before[a] && out@[b] == before[b - 1]);
                } else {
                    assert(out@[a] == before[a - 1] && out@[b] == before[b - 1]);
                }
            }
            assert forall|a: int| 0 <= a < out@.len() implies (#[trigger] out@[a]) < i + 1 by {
                if a < j {
                    assert(out@[a] == before[a]);
                } else if a > j {
                    assert(out@[a] == before[a - 1]);
                }
            }
        }
        i = i + 1;
    }
    out
}

} // verus!
