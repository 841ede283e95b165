//! The ordered parameter mapping collected for one tool call.
//!
//! Insertion order is preserved; inserting under a name already present
//! overwrites the value in place, keeping the position of the first
//! insertion.  The mapping is modelled as a sequence of (name, value) pairs
//! of character sequences with pairwise distinct names.

use vstd::prelude::*;
use crate::text::chars_vec;

verus! {

/// Compares two string slices character by character.
pub fn str_eq(a: &str, b: &str) -> (r: bool)
    ensures
        r == (a@ == b@),
{
    let va = chars_vec(a);
    let vb = chars_vec(b);
    if va.len() != vb.len() {
        return false;
    }
    let n = va.len();
    let mut i: usize = 0;
    while i < n
        invariant
            0 <= i <= n,
            n == va@.len() == vb@.len(),
            va@ == a@,
            vb@ == b@,
            forall|j: int| 0 <= j < i ==> va@[j] == vb@[j],
        decreases n - i,
    {
        if va[i] != vb[i] {
            return false;
        }
        i = i + 1;
    }
    proof {
        assert(a@ =~= b@);
    }
    true
}

/// One named argument of a tool call.
#[derive(Debug, Clone, PartialEq, Eq)]
pub struct Argument {
    pub name: String,
    pub value: String,
}

impl View for Argument {
    type V = (Seq<char>, Seq<char>);

    open spec fn view(&self) -> (Seq<char>, Seq<char>) {
        (self.name@, self.value@)
    }
}

/// The names of `m` are pairwise distinct.
pub open spec fn distinct_names(m: Seq<(Seq<char>, Seq<char>)>) -> bool {
    forall|i: int, j: int| 0 <= i < j < m.len() ==> m[i].0 != m[j].0
}

/// `m` holds an entry named `k`.
pub open spec fn has_name(m: Seq<(Seq<char>, Seq<char>)>, k: Seq<char>) -> bool {
    exists|i: int| 0 <= i < m.len() && m[i].0 == k
}

/// The value of the first entry named `k`, if any.
pub open spec fn lookup(m: Seq<(Seq<char>, Seq<char>)>, k: Seq<char>) -> Option<Seq<char>>
    decreases m.len(),
{
    if m.len() == 0 {
        None
    } else if m[0].0 == k {
        Some(m[0].1)
    } else {
        lookup(m.drop_first(), k)
    }
}

/// `m` with `v` stored under `k`: the first entry named `k` is overwritten in
/// place; absent that, the pair is appended.
pub open spec fn upsert(
    m: Seq<(Seq<char>, Seq<char>)>,
    k: Seq<char>,
    v: Seq<char>,
) -> Seq<(Seq<char>, Seq<char>)>
    decreases m.len(),
{
    if m.len() == 0 {
        seq![(k, v)]
    } else if m[0].0 == k {
        seq![(k, v)] + m.drop_first()
    } else {
        seq![m[0]] + upsert(m.drop_first(), k, v)
    }
}

/// Storing under a fresh name appends the pair.
pub proof fn lemma_upsert_fresh(m: Seq<(Seq<char>, Seq<char>)>, k: Seq<char>, v: Seq<char>)
    requires
        !has_name(m, k),
    ensures
        upsert(m, k, v) == m.push((k, v)),
    decreases m.len(),
{
    if m.len() == 0 {
        assert(seq![(k, v)] =~= m.push((k, v)));
    } else {
        assert(m[0].0 != k);
        assert(!has_name(m.drop_first(), k)) by {
            assert(forall|i: int|
                0 <= i < m.drop_first().len() ==> m.drop_first()[i] == m[i + 1]);
        }
        lemma_upsert_fresh(m.drop_first(), k, v);
        assert(seq![m[0]] + m.drop_first().push((k, v)) =~= m.push((k, v)));
    }
}

/// Storing keeps names distinct.
pub proof fn lemma_upsert_distinct(m: Seq<(Seq<char>, Seq<char>)>, k: Seq<char>, v: Seq<char>)
    requires
        distinct_names(m),
    ensures
        distinct_names(upsert(m, k, v)),
        upsert(m, k, v).len() == if has_name(m, k) {
            m.len() as int
        } else {
            m.len() as int + 1
        },
    decreases m.len(),
{
    if m.len() == 0 {
    } else if m[0].0 == k {
        let r = seq![(k, v)] + m.drop_first();
        assert forall|i: int, j: int| 0 <= i < j < r.len() implies r[i].0 != r[j].0 by {
            assert(m.drop_first()[j - 1] == m[j]);
            if i > 0 {
                assert(m.drop_first()[i - 1] == m[i]);
            }
        }
        assert(has_name(m, k));
    } else {
        assert(distinct_names(m.drop_first())) by {
            assert(forall|i: int|
                0 <= i < m.drop_first().len() ==> m.drop_first()[i] == m[i + 1]);
        }
        lemma_upsert_distinct(m.drop_first(), k, v);
        let rt = upsert(m.drop_first(), k, v);
        let r = seq![m[0]] + rt;
        assert forall|i: int, j: int| 0 <= i < j < r.len() implies r[i].0 != r[j].0 by {
            if i == 0 {
                assert(r[j].0 == rt[j - 1].0);
                lemma_upsert_member(m.drop_first(), k, v, j - 1);
                if rt[j - 1].0 != k {
                    let w = choose|w: int|
                        0 <= w < m.drop_first().len() && m.drop_first()[w] == rt[j - 1];
                    assert(m.drop_first()[w] == m[w + 1]);
                }
            }
        }
        if has_name(m, k) {
            let w = choose|w: int| 0 <= w < m.len() && m[w].0 == k;
            assert(m.drop_first()[w - 1] == m[w]);
            assert(has_name(m.drop_first(), k));
        }
        if has_name(m.drop_first(), k) {
            let w = choose|w: int|
                0 <= w < m.drop_first().len() && m.drop_first()[w].0 == k;
            assert(m.drop_first()[w] == m[w + 1]);
            assert(has_name(m, k));
        }
    }
}

/// Every entry of an upsert either carries the stored name or comes from `m`.
proof fn lemma_upsert_member(
    m: Seq<(Seq<char>, Seq<char>)>,
    k: Seq<char>,
    v: Seq<char>,
    i: int,
)
    requires
        0 <= i < upsert(m, k, v).len(),
    ensures
        upsert(m, k, v)[i].0 == k || exists|w: int| 0 <= w < m.len() && m[w] == upsert(m, k, v)[i],
    decreases m.len(),
{
    if m.len() == 0 {
    } else if m[0].0 == k {
        if i > 0 {
            assert(upsert(m, k, v)[i] == m.drop_first()[i - 1]);
            assert(m.drop_first()[i - 1] == m[i]);
        }
    } else {
        if i > 0 {
            lemma_upsert_member(m.drop_first(), k, v, i - 1);
            let r = upsert(m, k, v);
            assert(r[i] == upsert(m.drop_first(), k, v)[i - 1]);
            if upsert(m.drop_first(), k, v)[i - 1].0 != k {
                let w = choose|w: int|
                    0 <= w < m.drop_first().len() && m.drop_first()[w] == upsert(
                        m.drop_first(),
                        k,
                        v,
                    )[i - 1];
                assert(m.drop_first()[w] == m[w + 1]);
            }
        }
    }
}

/// The ordered parameter mapping of one tool call.
#[derive(Debug, Clone, PartialEq, Eq)]
pub struct ToolArguments {
    entries: Vec<Argument>,
}

impl View for ToolArguments {
    type V = Seq<(Seq<char>, Seq<char>)>;

    closed spec fn view(&self) -> Seq<(Seq<char>, Seq<char>)> {
        self.entries@.map_values(|a: Argument| a@)
    }
}

impl ToolArguments {
    /// Names are pairwise distinct.
    pub open spec fn wf(&self) -> bool {
        distinct_names(self@)
    }

    /// An empty mapping.
    pub fn new() -> (r: ToolArguments)
        ensures
            r@ == Seq::<(Seq<char>, Seq<char>)>::empty(),
            r.wf(),
    {
        let r = ToolArguments { entries: Vec::new() };
        proof {
            assert(r@ =~= Seq::<(Seq<char>, Seq<char>)>::empty());
        }
        r
    }

    /// The number of entries.
    pub fn len(&self) -> (n: usize)
        ensures
            n == self@.len(),
    {
        self.entries.len()
    }

    /// Whether the mapping holds no entry.
    pub fn is_empty(&self) -> (r: bool)
        ensures
            r == (self@.len() == 0),
    {
        self.entries.len() == 0
    }

    /// The entry at position `i`, in insertion order.
    pub fn entry(&self, i: usize) -> (a: &Argument)
        requires
            i < self@.len(),
        ensures
            a@ == self@[i as int],
    {
        &self.entries[i]
    }

    /// The value stored under `name`, if any.
    pub fn get(&self, name: &str) -> (r: Option<&String>)
        ensures
            match r {
                Some(v) => lookup(self@, name@) == Some(v@),
                None => lookup(self@, name@) is None,
            },
    {
        let n = self.entries.len();
        let mut i: usize = 0;
        proof {
            assert(self@.skip(0) =~= self@);
        }
        while i < n
            invariant
                0 <= i <= n == self@.len(),
                lookup(self@, name@) == lookup(self@.skip(i as int), name@),
        decreases n - i,
        {
            proof {
                assert(self@.skip(i as int)[0] == self@[i as int]);
                assert(self@.skip(i as int).drop_first() =~= self@.skip(i as int + 1));
            }
            if str_eq(self.entries[i].name.as_str(), name) {
                return Some(&self.entries[i].value);
            }
            i = i + 1;
        }
        proof {
            assert(self@.skip(n as int) =~= Seq::<(Seq<char>, Seq<char>)>::empty());
        }
        None
    }

    /// Renders the mapping as a JSON object, entries in insertion order, so
    /// a downstream dispatcher can consume the arguments directly.
    pub fn to_json(&self) -> (r: String)
        ensures
            r@ == json_object_chars(self@),
    {
        json_of_entries(&self.entries)
    }

    /// Stores `value` under `name`, overwriting in place.
    pub fn insert(&mut self, name: String, value: String)
        requires
            old(self).wf(),
        ensures
            final(self)@ == upsert(old(self)@, name@, value@),
            final(self).wf(),
    {
        let n = self.entries.len();
        let mut i: usize = 0;
        while i < n
            invariant
                0 <= i <= n == self@.len(),
                self@ == old(self)@,
                self.wf(),
                forall|j: int| 0 <= j < i ==> self@[j].0 != name@,
            decreases n - i,
        {
            if str_eq(self.entries[i].name.as_str(), name.as_str()) {
                proof {
                    lemma_upsert_at(self@, name@, value@, i as int);
                    lemma_upsert_distinct(self@, name@, value@);
                }
                let a = Argument { name, value };
                self.entries.remove(i);
                self.entries.insert(i, a);
                proof {
                    assert(self@ =~= old(self)@.update(i as int, (a@.0, a@.1)));
                }
                return ;
            }
            i = i + 1;
        }
        proof {
            assert(!has_name(self@, name@)) by {
                if has_name(self@, name@) {
                    let w = choose|w: int| 0 <= w < self@.len() && self@[w].0 == name@;
                    assert(self@[w].0 != name@);
                }
            }
            lemma_upsert_fresh(self@, name@, value@);
            lemma_upsert_distinct(self@, name@, value@);
        }
        let a = Argument { name, value };
        self.entries.push(a);
        proof {
            assert(self@ =~= old(self)@.push((a@.0, a@.1)));
        }
    }
}

/// The JSON rendering of an ordered mapping of strings.  Only the trusted
/// wrapper below says anything about this function.
pub uninterp spec fn json_object_chars(pairs: Seq<(Seq<char>, Seq<char>)>) -> Seq<char>;

/// Relies on `serde_json::to_string` over `serde_json::Map`: rendering a map
/// whose values are strings depends on the entries alone and cannot fail.
#[verifier::external_body]
fn json_of_entries(entries: &Vec<Argument>) -> (r: String)
    ensures
        r@ == json_object_chars(entries@.map_values(|a: Argument| a@)),
{
    let object = entries
        .iter()
        .map(|a| (a.name.clone(), serde_json::Value::String(a.value.clone())))
        .collect::<serde_json::Map<String, serde_json::Value>>();
    serde_json::to_string(&serde_json::Value::Object(object)).expect("a map of strings serializes")
}

/// Unfolds `upsert` down to the first match, phrased over positions.
proof fn lemma_upsert_at(m: Seq<(Seq<char>, Seq<char>)>, k: Seq<char>, v: Seq<char>, i: int)
    requires
        0 <= i < m.len(),
        m[i].0 == k,
        forall|j: int| 0 <= j < i ==> m[j].0 != k,
    ensures
        upsert(m, k, v) == m.update(i, (k, v)),
    decreases m.len(),
{
    if i == 0 {
        assert(seq![(k, v)] + m.drop_first() =~= m.update(0, (k, v)));
    } else {
        assert(m.drop_first()[i - 1] == m[i]);
        assert(forall|j: int| 0 <= j < i - 1 ==> m.drop_first()[j] == m[j + 1]);
        lemma_upsert_at(m.drop_first(), k, v, i - 1);
        assert(seq![m[0]] + m.drop_first().update(i - 1, (k, v)) =~= m.update(i, (k, v)));
    }
}

} // verus!
