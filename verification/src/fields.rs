use vstd::prelude::*;

use crate::value::{jv_eq, JsonValue};

verus! {

/// First index whose key reads `k`, or `-1` when no entry has that key.
pub open spec fn find_key(s: Seq<(String, JsonValue)>, k: Seq<char>) -> int
    decreases s.len(),
{
    if s.len() == 0 {
        -1
    } else if s[0].0@ == k {
        0
    } else {
        let r = find_key(s.drop_first(), k);
        if r < 0 {
            -1
        } else {
            r + 1
        }
    }
}

/// `find_key` returns `-1` or a valid index whose key is `k`.
pub proof fn lemma_find_key_range(s: Seq<(String, JsonValue)>, k: Seq<char>)
    ensures
        -1 <= find_key(s, k) < s.len(),
        find_key(s, k) >= 0 ==> s[find_key(s, k)].0@ == k,
        find_key(s, k) == -1 ==> forall|j: int| 0 <= j < s.len() ==> (#[trigger] s[j]).0@ != k,
    decreases s.len(),
{
    if s.len() > 0 && s[0].0@ != k {
        lemma_find_key_range(s.drop_first(), k);
        assert forall|j: int| find_key(s, k) == -1 && 0 <= j < s.len() implies (#[trigger] s[j]).0@
            != k by {
            if j > 0 {
                assert(s.drop_first()[j - 1] == s[j]);
            }
        }
    }
}

/// `find_key` finds the first matching index.
pub proof fn lemma_find_key_at(s: Seq<(String, JsonValue)>, k: Seq<char>, i: int)
    requires
        0 <= i < s.len(),
        s[i].0@ == k,
        forall|j: int| 0 <= j < i ==> (#[trigger] s[j]).0@ != k,
    ensures
        find_key(s, k) == i,
    decreases s.len(),
{
    if i > 0 {
        assert(s[0].0@ != k);
        assert(s.drop_first()[i - 1] == s[i]);
        assert forall|j: int| 0 <= j < i - 1 implies (#[trigger] s.drop_first()[j]).0@ != k by {
            assert(s.drop_first()[j] == s[j + 1]);
        }
        lemma_find_key_at(s.drop_first(), k, i - 1);
    }
}

/// Entrywise structural equality of two entry sequences: same keys in
/// the same order, structurally equal values.
pub open spec fn entries_eq(a: Seq<(String, JsonValue)>, b: Seq<(String, JsonValue)>) -> bool {
    &&& a.len() == b.len()
    &&& forall|i: int| 0 <= i < a.len() ==> (#[trigger] a[i]).0@ == b[i].0@ && jv_eq(a[i].1, b[i].1)
}

/// A mapping from string keys to structured values with unique keys;
/// entries keep their insertion order.
pub struct FieldMap {
    pub entries: Vec<(String, JsonValue)>,
}

impl FieldMap {
    /// The keys of the entries, in order.
    pub open spec fn keys(self) -> Seq<Seq<char>> {
        self.entries@.map_values(|e: (String, JsonValue)| e.0@)
    }

    /// Well-formed: no two entries share a key.
    pub open spec fn wf(self) -> bool {
        forall|i: int, j: int|
            0 <= i < j < self.entries@.len() ==> (#[trigger] self.entries@[i]).0@ != (
            #[trigger] self.entries@[j]).0@
    }

    /// An empty mapping.
    pub fn new() -> (r: FieldMap)
        ensures
            r.entries@ == Seq::<(String, JsonValue)>::empty(),
            r.wf(),
    {
        FieldMap { entries: Vec::new() }
    }

    /// The number of entries.
    pub fn len(&self) -> (r: usize)
        ensures
            r == self.entries@.len(),
    {
        self.entries.len()
    }

    /// Whether the mapping has no entries.
    pub fn is_empty(&self) -> (r: bool)
        ensures
            r == (self.entries@.len() == 0),
    {
        self.entries.len() == 0
    }

    /// Inserts `value` under `key`: replaces the value of the entry
    /// that already has `key`, keeping its place, or appends a new
    /// entry at the end.
    pub fn insert(&mut self, key: String, value: JsonValue)
        ensures
            ({
                let f = find_key(old(self).entries@, key@);
                if f < 0 {
                    final(self).entries@ == old(self).entries@.push((key, value))
                } else {
                    final(self).entries@ == old(self).entries@.update(f, (key, value))
                }
            }),
            old(self).wf() ==> final(self).wf(),
    {
        let n = self.entries.len();
        let mut i: usize = 0;
        while i < n
            invariant
                n == self.entries@.len(),
                i <= n,
                *self == *old(self),
                forall|j: int| 0 <= j < i ==> (#[trigger] self.entries@[j]).0@ != key@,
            decreases n - i,
        {
            if self.entries[i].0 == key {
                proof {
                    lemma_find_key_at(self.entries@, key@, i as int);
                }
                self.entries[i] = (key, value);
                proof {
                    let f = find_key(old(self).entries@, key@);
                    assert(final(self).entries@ == old(self).entries@.update(f, (key, value)));
                }
                return ;
            }
            i = i + 1;
        }
        proof {
            lemma_find_key_range(self.entries@, key@);
            if find_key(self.entries@, key@) >= 0 {
                assert(self.entries@[find_key(self.entries@, key@)].0@ == key@);
                assert(false);
            }
        }
        self.entries.push((key, value));
    }

    /// The value stored under `key`, when there is one.
    pub fn get(&self, key: &str) -> (r: Option<&JsonValue>)
        ensures
            ({
                let f = find_key(self.entries@, key@);
                match r {
                    Some(v) => f >= 0 && *v == self.entries@[f].1,
                    None => f == -1,
                }
            }),
    {
        let n = self.entries.len();
        let mut i: usize = 0;
        while i < n
            invariant
                n == self.entries@.len(),
                i <= n,
                forall|j: int| 0 <= j < i ==> (#[trigger] self.entries@[j]).0@ != key@,
            decreases n - i,
        {
            if str_eq(self.entries[i].0.as_str(), key) {
                proof {
                    lemma_find_key_at(self.entries@, key@, i as int);
                }
                return Some(&self.entries[i].1);
            }
            i = i + 1;
        }
        proof {
            lemma_find_key_range(self.entries@, key@);
            if find_key(self.entries@, key@) >= 0 {
                assert(self.entries@[find_key(self.entries@, key@)].0@ == key@);
                assert(false);
            }
        }
        None
    }

    /// Inserts every entry of `other`, in order; an entry of `other`
    /// wins over an existing entry with the same key.
    pub fn extend_from(&mut self, other: FieldMap)
        ensures
            final(self).entries@ == merge_entries(old(self).entries@, other.entries@),
            old(self).wf() ==> final(self).wf(),
    {
        let ghost orig = other.entries@;
        let mut rest = other.entries;
        let n = rest.len();
        let mut i: usize = 0;
        while i < n
            invariant
                n == orig.len(),
                i <= n,
                rest@ == orig.subrange(i as int, n as int),
                self.entries@ == merge_entries(old(self).entries@, orig.subrange(0, i as int)),
                old(self).wf() ==> self.wf(),
            decreases n - i,
        {
            let e = rest.remove(0);
            proof {
                assert(e == orig[i as int]);
            }
            self.insert(e.0, e.1);
            i = i + 1;
            proof {
                assert(rest@ =~= orig.subrange(i as int, n as int));
                lemma_merge_snoc(old(self).entries@, orig, i as int);
            }
        }
        proof {
            assert(orig.subrange(0, n as int) =~= orig);
        }
    }

    /// Clones the mapping; the copy has the same keys in the same
    /// order and structurally equal values.
    pub fn duplicate(&self) -> (r: FieldMap)
        ensures
            entries_eq(r.entries@, self.entries@),
            self.wf() ==> r.wf(),
    {
        let n = self.entries.len();
        let mut out: Vec<(String, JsonValue)> = Vec::new();
        let mut i: usize = 0;
        while i < n
            invariant
                n == self.entries@.len(),
                i <= n,
                out@.len() == i,
                forall|j: int|
                    0 <= j < i ==> (#[trigger] out@[j]).0@ == self.entries@[j].0@ && jv_eq(
                        out@[j].1,
                        self.entries@[j].1,
                    ),
            decreases n - i,
        {
            let e = clone_entry(&self.entries[i]);
            out.push(e);
            i = i + 1;
        }
        let r = FieldMap { entries: out };
        proof {
            if self.wf() {
                assert forall|i2: int, j2: int| 0 <= i2 < j2 < r.entries@.len() implies (
                #[trigger] r.entries@[i2]).0@ != (#[trigger] r.entries@[j2]).0@ by {
                    assert(r.entries@[i2].0@ == self.entries@[i2].0@);
                    assert(r.entries@[j2].0@ == self.entries@[j2].0@);
                }
            }
        }
        r
    }
}

/// The entry sequence after inserting one entry: it replaces the entry
/// with the same key, in place, or is appended at the end.
pub open spec fn insert_entry(
    a: Seq<(String, JsonValue)>,
    e: (String, JsonValue),
) -> Seq<(String, JsonValue)> {
    let f = find_key(a, e.0@);
    if f < 0 {
        a.push(e)
    } else {
        a.update(f, e)
    }
}

/// The entry sequence after inserting every entry of `b` into `a`, in
/// order; a later entry wins over an earlier one with the same key.
pub open spec fn merge_entries(
    a: Seq<(String, JsonValue)>,
    b: Seq<(String, JsonValue)>,
) -> Seq<(String, JsonValue)>
    decreases b.len(),
{
    if b.len() == 0 {
        a
    } else {
        merge_entries(insert_entry(a, b[0]), b.drop_first())
    }
}

/// Merging one more entry inserts it into the merge of what came
/// before.
pub proof fn lemma_merge_push(
    a: Seq<(String, JsonValue)>,
    b: Seq<(String, JsonValue)>,
    e: (String, JsonValue),
)
    ensures
        merge_entries(a, b.push(e)) == insert_entry(merge_entries(a, b), e),
    decreases b.len(),
{
    if b.len() == 0 {
        assert(b.push(e)[0] == e);
        assert(b.push(e).drop_first() =~= Seq::<(String, JsonValue)>::empty());
        assert(merge_entries(insert_entry(a, e), Seq::<(String, JsonValue)>::empty())
            == insert_entry(a, e));
        assert(merge_entries(a, b.push(e)) == merge_entries(
            insert_entry(a, b.push(e)[0]),
            b.push(e).drop_first(),
        ));
    } else {
        assert(b.push(e)[0] == b[0]);
        assert(b.push(e).drop_first() =~= b.drop_first().push(e));
        lemma_merge_push(insert_entry(a, b[0]), b.drop_first(), e);
    }
}

/// A prefix of a merge extends by inserting the next entry.
pub proof fn lemma_merge_snoc(a: Seq<(String, JsonValue)>, b: Seq<(String, JsonValue)>, i: int)
    requires
        0 < i <= b.len(),
    ensures
        merge_entries(a, b.subrange(0, i)) == insert_entry(
            merge_entries(a, b.subrange(0, i - 1)),
            b[i - 1],
        ),
{
    assert(b.subrange(0, i) =~= b.subrange(0, i - 1).push(b[i - 1]));
    lemma_merge_push(a, b.subrange(0, i - 1), b[i - 1]);
}

impl FieldMap {
    /// Whether no two entries share a key: a runtime check of the
    /// well-formedness invariant.
    pub fn check_wf(&self) -> (r: bool)
        ensures
            r == self.wf(),
    {
        let n = self.entries.len();
        let mut i: usize = 0;
        while i < n
            invariant
                n == self.entries@.len(),
                i <= n,
                forall|a: int, b: int|
                    0 <= a < i && a < b < n ==> (#[trigger] self.entries@[a]).0@ != (
                    #[trigger] self.entries@[b]).0@,
            decreases n - i,
        {
            let mut j: usize = i + 1;
            while j < n
                invariant
                    n == self.entries@.len(),
                    i < j <= n,
                    i < n,
                    forall|b: int|
                        i < b < j ==> (#[trigger] self.entries@[b]).0@ != self.entries@[i as int].0@,
                decreases n - j,
            {
                if str_eq(self.entries[i].0.as_str(), self.entries[j].0.as_str()) {
                    proof {
                        assert(self.entries@[i as int].0@ == self.entries@[j as int].0@);
                    }
                    return false;
                }
                j = j + 1;
            }
            i = i + 1;
        }
        true
    }
}

/// Whether two string slices hold the same characters.
pub fn str_eq(a: &str, b: &str) -> (r: bool)
    ensures
        r == (a@ == b@),
{
    let na = a.unicode_len();
    let nb = b.unicode_len();
    if na != nb {
        return false;
    }
    let mut i: usize = 0;
    while i < na
        invariant
            na == a@.len(),
            na == b@.len(),
            i <= na,
            forall|j: int| 0 <= j < i ==> a@[j] == b@[j],
        decreases na - i,
    {
        if a.get_char(i) != b.get_char(i) {
            return false;
        }
        i = i + 1;
    }
    proof {
        assert(a@ =~= b@);
    }
    true
}

/// Clones one key/value entry; the copy has the same key characters
/// and a structurally equal value.
pub fn clone_entry(e: &(String, JsonValue)) -> (r: (String, JsonValue))
    ensures
        r.0@ == e.0@,
        jv_eq(r.1, e.1),
{
    (e.0.clone(), e.1.clone())
}

} // verus!
