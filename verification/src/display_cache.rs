//! The small most-recent-first caches of display results: one entry per
//! file, at most `DISPLAY_RESULT_CACHE_LIMIT` entries, the newest first.
//!
//! An entry is found again by its file path and by a key that says what the
//! result was computed from (a content hash, a scope, a generation). The key
//! is compared with its own `==`; what the cache promises of a lookup by key
//! holds for key types whose `==` follows their specification.

use vstd::prelude::*;
use vstd::string::*;
use crate::source_support::equals_bytes;
use crate::text::bytes_of;
use vstd::std_specs::cmp::PartialEqSpec;

verus! {

broadcast use vstd::seq_lib::group_seq_properties;

/// How many display results are kept at most.
pub const DISPLAY_RESULT_CACHE_LIMIT: usize = 4;

/// A cached value for one file, with the key it was computed for.
pub struct CacheEntry<K, V> {
    pub file_path: String,
    pub key: K,
    pub value: V,
}

/// The model of an entry: the file path's bytes, the key and the value.
pub open spec fn entry_model<K, V>(e: CacheEntry<K, V>) -> (Seq<u8>, K, V) {
    (bytes_of(e.file_path), e.key, e.value)
}

/// The entries of `s` whose file is not `f`, in order.
pub open spec fn without_file<K, V>(s: Seq<(Seq<u8>, K, V)>, f: Seq<u8>) -> Seq<(Seq<u8>, K, V)>
    decreases s.len(),
{
    if s.len() == 0 {
        s
    } else if s[0].0 == f {
        without_file(s.skip(1), f)
    } else {
        seq![s[0]] + without_file(s.skip(1), f)
    }
}

/// The first `n` elements of `s`, or all of them if it is shorter.
pub open spec fn truncated<A>(s: Seq<A>, n: int) -> Seq<A> {
    if s.len() <= n {
        s
    } else {
        s.take(n)
    }
}

/// Truncating a sequence that starts with `n` given elements keeps them.
pub proof fn lemma_truncated_full<A>(a: Seq<A>, b: Seq<A>, n: int)
    requires
        a.len() == n,
    ensures
        truncated(a + b, n) == a,
{
    assert((a + b).take(n) =~= a);
    if b.len() == 0 {
        assert(a + b =~= a);
    }
}

/// The cache after inserting `(f, k, v)`: it comes first, an older entry for
/// the same file is dropped, and the oldest entries beyond the limit go.
pub open spec fn inserted<K, V>(s: Seq<(Seq<u8>, K, V)>, f: Seq<u8>, k: K, v: V) -> Seq<
    (Seq<u8>, K, V),
> {
    truncated(seq![(f, k, v)] + without_file(s, f), DISPLAY_RESULT_CACHE_LIMIT as int)
}

/// No two entries are for the same file.
pub open spec fn distinct_files<K, V>(s: Seq<(Seq<u8>, K, V)>) -> bool {
    forall|i: int, j: int| 0 <= i < j < s.len() ==> #[trigger] s[i].0 != #[trigger] s[j].0
}

/// The index of the first entry for file `f` from index `i` on.
pub open spec fn first_for_file<K, V>(s: Seq<(Seq<u8>, K, V)>, f: Seq<u8>, i: int) -> Option<int>
    decreases s.len() - i,
{
    if i < 0 || i >= s.len() {
        None
    } else if s[i].0 == f {
        Some(i)
    } else {
        first_for_file(s, f, i + 1)
    }
}

/// The index of the first entry for file `f` whose key equals `k` (by the
/// key type's specified `==`), from index `i` on.
pub open spec fn first_for_key<K: PartialEq, V>(s: Seq<(Seq<u8>, K, V)>, f: Seq<u8>, k: K, i: int) -> Option<int>
    decreases s.len() - i,
{
    if i < 0 || i >= s.len() {
        None
    } else if s[i].0 == f && s[i].1.eq_spec(&k) {
        Some(i)
    } else {
        first_for_key(s, f, k, i + 1)
    }
}

/// `r` is the value stored at the index that a lookup found, or nothing
/// when it found none.
pub open spec fn is_value_at<K, V>(r: Option<&V>, s: Seq<(Seq<u8>, K, V)>, found: Option<int>) -> bool {
    match found {
        Some(i) => r == Some(&s[i].2),
        None => r is None,
    }
}

/// The entries left for other files are entries of `s`, none for `f`, and
/// they keep their files distinct when `s` does.
pub proof fn lemma_without_file<K, V>(s: Seq<(Seq<u8>, K, V)>, f: Seq<u8>)
    ensures
        without_file(s, f).len() <= s.len(),
        forall|j: int|
            0 <= j < without_file(s, f).len() ==> #[trigger] without_file(s, f)[j].0 != f
                && s.contains(without_file(s, f)[j]),
        forall|j: int|
            0 <= j < s.len() && s[j].0 != f ==> #[trigger] without_file(s, f).contains(s[j]),
        distinct_files(s) ==> distinct_files(without_file(s, f)),
    decreases s.len(),
{
    if s.len() > 0 {
        let t = s.skip(1);
        lemma_without_file(t, f);
        let w = without_file(t, f);
        assert forall|j: int| 0 <= j < w.len() implies s.contains(#[trigger] w[j]) by {
            let k = choose|k: int| 0 <= k < t.len() && t[k] == w[j];
            assert(s[k + 1] == w[j]);
        }
        assert forall|j: int| 0 <= j < s.len() && s[j].0 != f implies #[trigger] without_file(
            s,
            f,
        ).contains(s[j]) by {
            if j > 0 {
                assert(t[j - 1] == s[j]);
                assert(w.contains(t[j - 1]));
                let k = choose|k: int| 0 <= k < w.len() && w[k] == s[j];
                if s[0].0 != f {
                    assert(without_file(s, f) =~= seq![s[0]] + w);
                    assert(without_file(s, f)[k + 1] == s[j]);
                } else {
                    assert(without_file(s, f) == w);
                }
            } else {
                assert(without_file(s, f)[0] == s[0]);
            }
        }
        if distinct_files(s) {
            assert(distinct_files(t)) by {
                assert forall|i: int, j: int| 0 <= i < j < t.len() implies #[trigger] t[i].0
                    != #[trigger] t[j].0 by {
                    assert(t[i] == s[i + 1] && t[j] == s[j + 1]);
                }
            }
            if s[0].0 != f {
                let ws = without_file(s, f);
                assert(ws =~= seq![s[0]] + w);
                assert forall|i: int, j: int| 0 <= i < j < ws.len() implies #[trigger] ws[i].0
                    != #[trigger] ws[j].0 by {
                    if i == 0 {
                        assert(ws[j] == w[j - 1]);
                        let k = choose|k: int| 0 <= k < t.len() && t[k] == w[j - 1];
                        assert(s[k + 1] == w[j - 1]);
                    } else {
                        assert(ws[i] == w[i - 1] && ws[j] == w[j - 1]);
                    }
                }
            }
        }
    }
}

/// A cache after an insertion holds at most `DISPLAY_RESULT_CACHE_LIMIT`
/// entries, the new one first, and no two entries for one file, when that
/// held before.
pub proof fn law_insert_keeps_cache_shape<K, V>(s: Seq<(Seq<u8>, K, V)>, f: Seq<u8>, k: K, v: V)
    requires
        distinct_files(s),
    ensures
        1 <= inserted(s, f, k, v).len() <= DISPLAY_RESULT_CACHE_LIMIT,
        inserted(s, f, k, v)[0] == (f, k, v),
        distinct_files(inserted(s, f, k, v)),
{
    lemma_without_file(s, f);
    let w = without_file(s, f);
    let a = seq![(f, k, v)] + w;
    let r = inserted(s, f, k, v);
    assert(r.len() <= a.len());
    assert forall|i: int, j: int| 0 <= i < j < r.len() implies #[trigger] r[i].0 != #[trigger] r[j].0 by {
        assert(r[i] == a[i] && r[j] == a[j]);
        if i == 0 {
            assert(a[j] == w[j - 1]);
        } else {
            assert(a[i] == w[i - 1] && a[j] == w[j - 1]);
        }
    }
}

/// After caching a value for a file, the lookup by that file finds it, as
/// the newest entry.
pub proof fn law_get_for_file_after_insert<K, V>(s: Seq<(Seq<u8>, K, V)>, f: Seq<u8>, k: K, v: V)
    ensures
        first_for_file(inserted(s, f, k, v), f, 0) == Some(0int),
        inserted(s, f, k, v)[0].2 == v,
{
}

/// After caching a value for a file under a key that equals itself, the
/// lookup by that file and key finds it, as the newest entry.
pub proof fn law_get_after_insert<K: PartialEq, V>(s: Seq<(Seq<u8>, K, V)>, f: Seq<u8>, k: K, v: V)
    requires
        k.eq_spec(&k),
    ensures
        first_for_key(inserted(s, f, k, v), f, k, 0) == Some(0int),
        inserted(s, f, k, v)[0].2 == v,
{
}

/// An insertion drops only entries for the inserted file and the oldest
/// beyond the limit: every other entry that stays is one of the cache's,
/// in the same order, and an entry for another file stays whenever fewer
/// than `DISPLAY_RESULT_CACHE_LIMIT - 1` other entries precede it.
pub proof fn law_insert_keeps_other_files<K, V>(s: Seq<(Seq<u8>, K, V)>, f: Seq<u8>, k: K, v: V)
    ensures
        forall|j: int|
            1 <= j < inserted(s, f, k, v).len() ==> #[trigger] inserted(s, f, k, v)[j]
                == without_file(s, f)[j - 1],
        inserted(s, f, k, v).len() == if without_file(s, f).len() + 1
            <= DISPLAY_RESULT_CACHE_LIMIT {
            without_file(s, f).len() + 1
        } else {
            DISPLAY_RESULT_CACHE_LIMIT as nat
        },
        forall|j: int|
            0 <= j < without_file(s, f).len() ==> #[trigger] without_file(s, f)[j].0 != f
                && s.contains(without_file(s, f)[j]),
        forall|j: int|
            0 <= j < s.len() && s[j].0 != f ==> #[trigger] without_file(s, f).contains(s[j]),
{
    lemma_without_file(s, f);
}

/// Most-recent-first cache of per-file results.
pub struct DisplayCache<K, V> {
    entries: Vec<CacheEntry<K, V>>,
}

impl<K, V> DisplayCache<K, V> {
    /// The entries, newest first.
    pub closed spec fn model(&self) -> Seq<(Seq<u8>, K, V)> {
        self.entries@.map_values(|e: CacheEntry<K, V>| entry_model(e))
    }

    #[verifier::type_invariant]
    closed spec fn cache_invariant(&self) -> bool {
        &&& self.entries@.len() <= DISPLAY_RESULT_CACHE_LIMIT
        &&& distinct_files(self.model())
    }

    /// An empty cache.
    pub fn new() -> (r: Self)
        ensures
            r.model() == Seq::<(Seq<u8>, K, V)>::empty(),
    {
        let r = DisplayCache { entries: Vec::new() };
        proof {
            assert(r.model() =~= Seq::<(Seq<u8>, K, V)>::empty());
        }
        r
    }

    /// How many entries the cache holds: never more than
    /// `DISPLAY_RESULT_CACHE_LIMIT`, and never two for one file.
    pub fn len(&self) -> (r: usize)
        ensures
            r == self.model().len(),
            r <= DISPLAY_RESULT_CACHE_LIMIT,
            distinct_files(self.model()),
    {
        proof {
            use_type_invariant(self);
        }
        self.entries.len()
    }

    /// Whether the cache holds no entry.
    pub fn is_empty(&self) -> (r: bool)
        ensures
            r == (self.model().len() == 0),
    {
        self.entries.len() == 0
    }

    /// The value of the newest entry, if any.
    pub fn most_recent(&self) -> (r: Option<&V>)
        ensures
            r == (if self.model().len() > 0 {
                Some(&self.model()[0].2)
            } else {
                None
            }),
    {
        if self.entries.len() > 0 {
            Some(&self.entries[0].value)
        } else {
            None
        }
    }

    /// Removes every entry.
    pub fn clear(&mut self)
        ensures
            final(self).model() == Seq::<(Seq<u8>, K, V)>::empty(),
    {
        self.entries = Vec::new();
        proof {
            assert(self.model() =~= Seq::<(Seq<u8>, K, V)>::empty());
        }
    }

    /// The value cached for `file_path`, whatever its key.
    pub fn get_for_file(&self, file_path: &str) -> (r: Option<&V>)
        ensures
            is_value_at(r, self.model(), first_for_file(self.model(), file_path.spec_bytes(), 0)),
    {
        let ghost m = self.model();
        let ghost f = file_path.spec_bytes();
        let mut i: usize = 0;
        while i < self.entries.len()
            invariant
                i <= self.entries@.len(),
                m == self.model(),
                f == file_path.spec_bytes(),
                first_for_file(m, f, 0) == first_for_file(m, f, i as int),
            decreases self.entries@.len() - i,
        {
            let e = &self.entries[i];
            let same = equals_bytes(e.file_path.as_str().as_bytes(), file_path.as_bytes());
            proof {
                assert(m[i as int] == entry_model(self.entries@[i as int]));
            }
            if same {
                return Some(&e.value);
            }
            i = i + 1;
        }
        None
    }
}

impl<K: PartialEq, V> DisplayCache<K, V> {
    /// The value cached for `file_path` under a key equal to `key`. For key
    /// types whose `==` follows its specification, this is the first such
    /// entry's value.
    pub fn get(&self, file_path: &str, key: &K) -> (r: Option<&V>)
        ensures
            K::obeys_eq_spec() ==> is_value_at(
                r,
                self.model(),
                first_for_key(self.model(), file_path.spec_bytes(), *key, 0),
            ),
    {
        let ghost m = self.model();
        let ghost f = file_path.spec_bytes();
        let mut i: usize = 0;
        while i < self.entries.len()
            invariant
                i <= self.entries@.len(),
                m == self.model(),
                f == file_path.spec_bytes(),
                K::obeys_eq_spec() ==> first_for_key(m, f, *key, 0) == first_for_key(
                    m,
                    f,
                    *key,
                    i as int,
                ),
            decreases self.entries@.len() - i,
        {
            let e = &self.entries[i];
            let same = equals_bytes(e.file_path.as_str().as_bytes(), file_path.as_bytes())
                && e.key.eq(key);
            proof {
                assert(m[i as int] == entry_model(self.entries@[i as int]));
            }
            if same {
                return Some(&e.value);
            }
            i = i + 1;
        }
        None
    }
}

impl<K, V> DisplayCache<K, V> {
    /// Caches `value` for `file_path` under `key`: the new entry comes first,
    /// an older entry for the same file is dropped, and the oldest entries
    /// beyond `DISPLAY_RESULT_CACHE_LIMIT` go.
    pub fn insert(&mut self, file_path: String, key: K, value: V)
        ensures
            final(self).model() == inserted(old(self).model(), bytes_of(file_path), key, value),
    {
        proof {
            use_type_invariant(&*self);
        }
        let ghost orig = self.model();
        let ghost f = bytes_of(file_path);
        let ghost first = (f, key, value);
        let mut rest: Vec<CacheEntry<K, V>> = Vec::new();
        std::mem::swap(&mut rest, &mut self.entries);
        let mut out: Vec<CacheEntry<K, V>> = Vec::new();
        out.push(CacheEntry { file_path, key, value });
        let ghost mut rm = orig;
        proof {
            assert(rest@.map_values(|e: CacheEntry<K, V>| entry_model(e)) =~= rm);
        }
        while rest.len() > 0
            invariant
                1 <= out@.len() <= DISPLAY_RESULT_CACHE_LIMIT,
                rm == rest@.map_values(|e: CacheEntry<K, V>| entry_model(e)),
                entry_model(out@[0]) == first,
                first.0 == f,
                distinct_files(rm),
                truncated(
                    out@.map_values(|e: CacheEntry<K, V>| entry_model(e)) + without_file(rm, f),
                    DISPLAY_RESULT_CACHE_LIMIT as int,
                ) == inserted(orig, f, first.1, first.2),
                forall|i: int|
                    0 <= i < out@.len() ==> (i == 0 <==> #[trigger] entry_model(out@[i]).0 == f),
                forall|i: int, j: int|
                    1 <= i < out@.len() && 0 <= j < rm.len() ==> #[trigger] entry_model(out@[i]).0
                        != #[trigger] rm[j].0,
                distinct_files(out@.map_values(|e: CacheEntry<K, V>| entry_model(e))),
            decreases rest@.len(),
        {
            let e = rest.remove(0);
            let ghost em = entry_model(e);
            let ghost om = out@.map_values(|x: CacheEntry<K, V>| entry_model(x));
            let ghost rm2 = rm.skip(1);
            proof {
                assert(em == rm[0]);
                assert(rest@.map_values(|x: CacheEntry<K, V>| entry_model(x)) =~= rm2);
            }
            let same = equals_bytes(e.file_path.as_str().as_bytes(), out[0].file_path.as_str().as_bytes());
            if !same && out.len() < DISPLAY_RESULT_CACHE_LIMIT {
                out.push(e);
                proof {
                    let om2 = out@.map_values(|x: CacheEntry<K, V>| entry_model(x));
                    assert(om2 =~= om.push(em));
                    assert(without_file(rm, f) =~= seq![em] + without_file(rm2, f));
                    assert(om2 + without_file(rm2, f) =~= om + without_file(rm, f));
                    assert forall|i: int, j: int| 0 <= i < j < om2.len() implies #[trigger] om2[i].0
                        != #[trigger] om2[j].0 by {
                        if j == om2.len() - 1 && i >= 1 {
                            assert(entry_model(out@[i]).0 != rm[0].0);
                        }
                        if j < om2.len() - 1 {
                            assert(om[i] == om2[i] && om[j] == om2[j]);
                        }
                    }
                    assert forall|i: int, j: int|
                        1 <= i < out@.len() && 0 <= j < rm2.len() implies #[trigger] entry_model(
                        out@[i],
                    ).0 != #[trigger] rm2[j].0 by {
                        assert(rm2[j] == rm[j + 1]);
                        if i < out@.len() - 1 {
                            assert(entry_model(out@[i]).0 != rm[j + 1].0);
                        } else {
                            assert(rm[0].0 != rm[j + 1].0);
                        }
                    }
                }
            } else {
                proof {
                    if same {
                        assert(without_file(rm, f) =~= without_file(rm2, f));
                    } else {
                        assert(without_file(rm, f) =~= seq![em] + without_file(rm2, f));
                        lemma_truncated_full(om, without_file(rm, f), DISPLAY_RESULT_CACHE_LIMIT as int);
                        lemma_truncated_full(om, without_file(rm2, f), DISPLAY_RESULT_CACHE_LIMIT as int);
                    }
                    assert forall|i: int, j: int|
                        1 <= i < out@.len() && 0 <= j < rm2.len() implies #[trigger] entry_model(
                        out@[i],
                    ).0 != #[trigger] rm2[j].0 by {
                        assert(rm2[j] == rm[j + 1]);
                    }
                }
            }
            proof {
                assert forall|i: int, j: int| 0 <= i < j < rm2.len() implies #[trigger] rm2[i].0
                    != #[trigger] rm2[j].0 by {
                    assert(rm2[i] == rm[i + 1] && rm2[j] == rm[j + 1]);
                }
                rm = rm2;
            }
        }
        proof {
            let om = out@.map_values(|x: CacheEntry<K, V>| entry_model(x));
            assert(without_file(rm, f) =~= Seq::<(Seq<u8>, K, V)>::empty());
            assert(om + without_file(rm, f) =~= om);
        }
        self.entries = out;
    }
}

} // verus!
