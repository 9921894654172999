//! `/proc/meminfo` fields.
//!
//! Each line is `Key:   value kB`. The library keeps, per key, the value
//! text without its unit; its conversion to mebibytes is the caller's.
use vstd::prelude::*;

use crate::collector::fdinfo::{key_pos, lemma_key_pos_at, lookup};
use crate::text::{
    chars_of, copy_range, ends_with, has_suffix, lines, same_chars, split_lines, split_once,
    split_once_char, trim, trim_chars,
};

verus! {

/// `s` with every trailing repetition of `p` removed
/// (`str::trim_end_matches`).
pub open spec fn trim_end_matches(s: Seq<char>, p: Seq<char>) -> Seq<char>
    decreases s.len(),
{
    if p.len() > 0 && has_suffix(s, p) {
        trim_end_matches(s.take(s.len() - p.len()), p)
    } else {
        s
    }
}

/// The number text of a meminfo value: trimmed, without its `kB` unit.
pub open spec fn value_text(v: Seq<char>) -> Seq<char> {
    trim(trim_end_matches(trim(v), "kB"@))
}

/// The fields after one line: a `key: value` line sets `key` (replacing
/// an earlier value of the same key); other lines change nothing.
pub open spec fn meminfo_line(m: Seq<(Seq<char>, Seq<char>)>, line: Seq<char>) -> Seq<(Seq<char>, Seq<char>)> {
    match split_once(line, ':') {
        None => m,
        Some((k, v)) => {
            let p = key_pos(m, k);
            if p < m.len() {
                m.update(p, (k, value_text(v)))
            } else {
                m.push((k, value_text(v)))
            }
        },
    }
}

/// The fields of the lines `ls`, read in order.
pub open spec fn meminfo_fold(ls: Seq<Seq<char>>) -> Seq<(Seq<char>, Seq<char>)>
    decreases ls.len(),
{
    if ls.len() == 0 {
        Seq::empty()
    } else {
        meminfo_line(meminfo_fold(ls.drop_last()), ls.last())
    }
}

/// The view of a list of (key, value) texts.
pub open spec fn field_views(s: Seq<(Vec<char>, Vec<char>)>) -> Seq<(Seq<char>, Seq<char>)> {
    Seq::new(s.len(), |i: int| (s[i].0@, s[i].1@))
}

fn strip_units(v: &[char]) -> (r: Vec<char>)
    ensures
        r@ == value_text(v@),
{
    let kb = chars_of("kB");
    proof {
        reveal_strlit("kB");
    }
    let mut t = trim_chars(v);
    while ends_with(t.as_slice(), kb.as_slice())
        invariant
            kb@ == "kB"@,
            kb@.len() == 2,
            trim_end_matches(trim(v@), kb@) == trim_end_matches(t@, kb@),
        decreases t@.len(),
    {
        t = copy_range(t.as_slice(), 0, t.len() - kb.len());
    }
    trim_chars(t.as_slice())
}

/// Reads `/proc/meminfo` into (key, value text) fields, each key once.
pub fn meminfo_fields(content: &[char]) -> (r: Vec<(Vec<char>, Vec<char>)>)
    ensures
        field_views(r@) == meminfo_fold(lines(content@)),
{
    let ls = split_lines(content);
    let mut m: Vec<(Vec<char>, Vec<char>)> = Vec::new();
    let mut i: usize = 0;
    while i < ls.len()
        invariant
            i <= ls@.len(),
            ls@.len() == lines(content@).len(),
            forall|j: int| 0 <= j < ls@.len() ==> #[trigger] ls@[j]@ == lines(content@)[j],
            field_views(m@) == meminfo_fold(lines(content@).take(i as int)),
        decreases ls@.len() - i,
    {
        proof {
            let t = lines(content@).take(i + 1);
            assert(t.drop_last() =~= lines(content@).take(i as int));
            assert(t.last() == ls@[i as int]@);
        }
        if let Some((k, v)) = split_once_char(ls[i].as_slice(), ':') {
            let value = strip_units(v.as_slice());
            let ghost fv = field_views(m@);
            let mut p: usize = 0;
            while p < m.len() && !same_chars(m[p].0.as_slice(), k.as_slice())
                invariant
                    p <= m@.len(),
                    fv == field_views(m@),
                    forall|j: int| 0 <= j < p ==> (#[trigger] fv[j]).0 != k@,
                decreases m@.len() - p,
            {
                p = p + 1;
            }
            proof {
                lemma_key_pos_at(fv, k@, p as int);
            }
            let ghost kv = k@;
            let ghost vv = value@;
            if p < m.len() {
                m.set(p, (k, value));
                proof {
                    assert(field_views(m@) =~= fv.update(p as int, (kv, vv)));
                }
            } else {
                m.push((k, value));
                proof {
                    assert(field_views(m@) =~= fv.push((kv, vv)));
                }
            }
        }
        i = i + 1;
    }
    assert(lines(content@).take(ls@.len() as int) =~= lines(content@));
    m
}

/// The value text of field `key`, if present.
pub fn meminfo_get<'a>(fields: &'a Vec<(Vec<char>, Vec<char>)>, key: &str) -> (r: Option<&'a Vec<char>>)
    ensures
        match r {
            Some(v) => lookup(field_views(fields@), key@) == Some(v@),
            None => lookup(field_views(fields@), key@) is None,
        },
{
    let k = chars_of(key);
    let ghost fv = field_views(fields@);
    let mut p: usize = 0;
    while p < fields.len() && !same_chars(fields[p].0.as_slice(), k.as_slice())
        invariant
            p <= fields@.len(),
            fv == field_views(fields@),
            k@ == key@,
            forall|j: int| 0 <= j < p ==> (#[trigger] fv[j]).0 != key@,
        decreases fields@.len() - p,
    {
        p = p + 1;
    }
    proof {
        lemma_key_pos_at(fv, key@, p as int);
    }
    if p < fields.len() {
        Some(&fields[p].1)
    } else {
        None
    }
}

} // verus!
