//! Lists of names for showing: each name once, in the order of texts.

use vstd::prelude::*;
use crate::scores::chars_le;
use crate::scores::lemma_text_le_antisymmetric;
use crate::scores::lemma_text_le_total;
use crate::scores::lemma_text_le_transitive;
use crate::scores::text_le;
use crate::text::chars_of;

verus! {

/// The names as sequences of characters.
pub open spec fn texts(names: Seq<String>) -> Seq<Seq<char>> {
    names.map_values(|n: String| n@)
}

/// Every name of `s` comes before all that follow it, and none occurs
/// twice.
pub open spec fn strictly_ascending(s: Seq<Seq<char>>) -> bool {
    forall|i: int, j: int|
        0 <= i < j < s.len() ==> text_le(#[trigger] s[i], #[trigger] s[j]) && s[i] != s[j]
}

/// `a` and `b` hold the same names, however often and in whatever order.
pub open spec fn same_names(a: Seq<Seq<char>>, b: Seq<Seq<char>>) -> bool {
    forall|t: Seq<char>| a.contains(t) <==> b.contains(t)
}

/// Putting `x` into `s` adds `x` to the names that `s` holds and takes
/// none away.
proof fn lemma_insert_names(s: Seq<Seq<char>>, at: int, x: Seq<char>)
    requires
        0 <= at <= s.len(),
    ensures
        forall|t: Seq<char>| s.insert(at, x).contains(t) <==> (s.contains(t) || t == x),
{
    let r = s.insert(at, x);
    assert forall|t: Seq<char>| r.contains(t) <==> (s.contains(t) || t == x) by {
        if r.contains(t) {
            let k = choose|k: int| 0 <= k < r.len() && r[k] == t;
            if k < at {
                assert(s[k] == t);
            } else if k > at {
                assert(s[k - 1] == t);
            }
        }
        if s.contains(t) {
            let k = choose|k: int| 0 <= k < s.len() && s[k] == t;
            if k < at {
                assert(r[k] == t);
            } else {
                assert(r[k + 1] == t);
            }
        }
        if t == x {
            assert(r[at] == t);
        }
    }
}

/// Where the name with the characters `key` belongs among the ascending
/// names `keys`: the first place whose name does not come before it.
fn place_of(keys: &Vec<Vec<char>>, key: &Vec<char>) -> (at: usize)
    ensures
        at <= keys.len(),
        forall|k: int| 0 <= k < at ==> text_le(#[trigger] keys[k]@, key@) && keys[k]@ != key@,
        at < keys.len() ==> text_le(key@, keys[at as int]@),
{
    let mut at: usize = 0;
    while at < keys.len() && !chars_le(key, &keys[at])
        invariant
            at <= keys.len(),
            forall|k: int| 0 <= k < at ==> text_le(#[trigger] keys[k]@, key@) && keys[k]@ != key@,
        decreases keys.len() - at,
    {
        proof {
            lemma_text_le_total(key@, keys[at as int]@);
            lemma_text_le_total(key@, key@);
        }
        at += 1;
    }
    at
}

/// The names of `names`, each once, in the order of texts.
pub fn sorted_unique(names: &Vec<String>) -> (out: Vec<String>)
    ensures
        strictly_ascending(texts(out@)),
        same_names(texts(out@), texts(names@)),
{
    let mut out: Vec<String> = Vec::new();
    let mut keys: Vec<Vec<char>> = Vec::new();
    let mut i: usize = 0;
    assert(texts(names@).take(0) == Seq::<Seq<char>>::empty());
    while i < names.len()
        invariant
            0 <= i <= names.len(),
            keys.len() == out.len(),
            forall|k: int| 0 <= k < out.len() ==> (#[trigger] keys[k])@ == out[k]@,
            strictly_ascending(texts(out@)),
            same_names(texts(out@), texts(names@).take(i as int)),
        decreases names.len() - i,
    {
        let key = chars_of(names[i].as_str());
        let at: usize = place_of(&keys, &key);
        let ghost before = texts(out@);
        let ghost seen = texts(names@).take(i as int);
        proof {
            assert(texts(names@).take(i + 1) == seen.push(key@));
            assert forall|t: Seq<char>| seen.push(key@).contains(t) <==> (seen.contains(t) || t
                == key@) by {
                if seen.push(key@).contains(t) {
                    let k = choose|k: int| 0 <= k < seen.len() + 1 && seen.push(key@)[k] == t;
                    if k < seen.len() {
                        assert(seen[k] == t);
                    }
                }
                if seen.contains(t) {
                    let k = choose|k: int| 0 <= k < seen.len() && seen[k] == t;
                    assert(seen.push(key@)[k] == t);
                }
                if t == key@ {
                    assert(seen.push(key@)[seen.len() as int] == t);
                }
            }
        }
        if at < keys.len() && chars_le(&keys[at], &key) {
            proof {
                lemma_text_le_antisymmetric(keys[at as int]@, key@);
                assert(before[at as int] == key@);
                assert(before.contains(key@));
                assert(seen.contains(key@));
                assert forall|t: Seq<char>| texts(out@).contains(t) <==> texts(names@).take(
                    i + 1,
                ).contains(t) by {
                    assert(before.contains(t) <==> seen.contains(t));
                }
            }
        } else {
            proof {
                lemma_insert_names(before, at as int, key@);
                let after = before.insert(at as int, key@);
                assert forall|a: int, b: int| 0 <= a < b < after.len() implies text_le(
                    #[trigger] after[a],
                    #[trigger] after[b],
                ) && after[a] != after[b] by {
                    if b < at {
                        assert(after[a] == before[a] && after[b] == before[b]);
                    } else if b == at {
                        assert(after[a] == before[a]);
                        assert(keys[a]@ == before[a]);
                    } else if a < at {
                        assert(after[a] == before[a] && after[b] == before[b - 1]);
                    } else if a == at {
                        assert(after[b] == before[b - 1]);
                        assert(keys[at as int]@ == before[at as int]);
                        if b - 1 > at {
                            assert(text_le(before[at as int], before[b - 1]));
                            lemma_text_le_transitive(key@, before[at as int], before[b - 1]);
                            if key@ == before[b - 1] {
                                lemma_text_le_antisymmetric(before[at as int], key@);
                            }
                        }
                    } else {
                        assert(after[a] == before[a - 1] && after[b] == before[b - 1]);
                    }
                }
            }
            out.insert(at, names[i].clone());
            keys.insert(at, key);
            proof {
                assert(texts(out@)[at as int] == key@);
                assert(texts(out@) =~= before.insert(at as int, key@));
                assert forall|t: Seq<char>| texts(out@).contains(t) <==> texts(names@).take(
                    i + 1,
                ).contains(t) by {
                    assert(before.contains(t) <==> seen.contains(t));
                }
            }
        }
        i += 1;
    }
    assert(texts(names@).take(i as int) == texts(names@));
    out
}

} // verus!
