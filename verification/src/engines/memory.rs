//! What the stateful detector remembers: the text each variable was last assigned.
use vstd::prelude::*;

verus! {

/// Variables and their values, each variable once.
pub struct VarMemory {
    entries: Vec<(String, String)>,
}

/// Does some entry of `s` have the name `k`?
pub open spec fn names(s: Seq<(Seq<char>, Seq<char>)>, k: Seq<char>) -> bool {
    exists|i: int| 0 <= i < s.len() && #[trigger] s[i].0 == k
}

/// No two entries share a name.
pub open spec fn distinct_names(s: Seq<(Seq<char>, Seq<char>)>) -> bool {
    forall|i: int, j: int| 0 <= i < s.len() && 0 <= j < s.len() && i != j ==> #[trigger] s[i].0
        != #[trigger] s[j].0
}

/// The map that a list of entries with distinct names stands for.
pub open spec fn entries_map(s: Seq<(Seq<char>, Seq<char>)>) -> Map<Seq<char>, Seq<char>> {
    Map::new(
        |k: Seq<char>| names(s, k),
        |k: Seq<char>| s[choose|i: int| 0 <= i < s.len() && #[trigger] s[i].0 == k].1,
    )
}

impl View for VarMemory {
    type V = Map<Seq<char>, Seq<char>>;

    closed spec fn view(&self) -> Map<Seq<char>, Seq<char>> {
        entries_map(self.entries.deep_view())
    }
}

proof fn lemma_value_at(s: Seq<(Seq<char>, Seq<char>)>, i: int)
    requires
        distinct_names(s),
        0 <= i < s.len(),
    ensures
        entries_map(s).contains_key(s[i].0),
        entries_map(s)[s[i].0] == s[i].1,
{
    let k = s[i].0;
    assert(names(s, k));
    let j = choose|j: int| 0 <= j < s.len() && #[trigger] s[j].0 == k;
    if j != i {
        assert(s[i].0 != s[j].0);
    }
}

/// Where the variable `key` stands in `entries`, if it has an entry.
fn find_entry(entries: &Vec<(String, String)>, key: &String) -> (res: Option<usize>)
    ensures
        res matches Some(i) ==> i < entries@.len() && entries.deep_view()[i as int].0 == key@,
        res is None ==> !names(entries.deep_view(), key@),
{
    let n = entries.len();
    let mut i: usize = 0;
    while i < n
        invariant
            i <= n == entries@.len(),
            forall|t: int| 0 <= t < i ==> entries.deep_view()[t].0 != key@,
        decreases n - i,
    {
        if entries[i].0 == *key {
            return Some(i);
        }
        i = i + 1;
    }
    assert forall|t: int| 0 <= t < entries.deep_view().len() implies #[trigger] entries.deep_view()[t].0
        != key@ by {}
    None
}

/// Gives `key` the value `value` in `entries`, replacing its earlier entry if there is one.
fn insert_entry(entries: &mut Vec<(String, String)>, key: String, value: String)
    requires
        distinct_names(old(entries).deep_view()),
    ensures
        distinct_names(final(entries).deep_view()),
        entries_map(final(entries).deep_view()) == entries_map(old(entries).deep_view()).insert(
            key@,
            value@,
        ),
{
    let ghost old_s = entries.deep_view();
    let ghost kv = key@;
    let ghost vv = value@;
    match find_entry(entries, &key) {
        Some(i) => {
            entries.set(i, (key, value));
            let ghost new_s = entries.deep_view();
            assert(new_s =~= old_s.update(i as int, (kv, vv)));
            assert forall|a: int, b: int|
                0 <= a < new_s.len() && 0 <= b < new_s.len() && a != b implies #[trigger] new_s[a].0
                != #[trigger] new_s[b].0 by {
                assert(new_s[a].0 == old_s[a].0);
                assert(new_s[b].0 == old_s[b].0);
            }
            assert(distinct_names(new_s));
            proof {
                lemma_same_after_update(old_s, new_s, i as int, kv, vv);
            }
        },
        None => {
            entries.push((key, value));
            let ghost new_s = entries.deep_view();
            assert(new_s =~= old_s.push((kv, vv)));
            assert forall|a: int, b: int|
                0 <= a < new_s.len() && 0 <= b < new_s.len() && a != b implies #[trigger] new_s[a].0
                != #[trigger] new_s[b].0 by {
                if a == old_s.len() {
                    assert(old_s[b].0 == new_s[b].0);
                } else if b == old_s.len() {
                    assert(old_s[a].0 == new_s[a].0);
                } else {
                    assert(old_s[a].0 == new_s[a].0);
                    assert(old_s[b].0 == new_s[b].0);
                }
            }
            assert(distinct_names(new_s));
            assert forall|k: Seq<char>| #[trigger] names(new_s, k) <==> (names(old_s, k) || k == kv) by {
                if names(old_s, k) {
                    let j = choose|j: int| 0 <= j < old_s.len() && #[trigger] old_s[j].0 == k;
                    assert(new_s[j].0 == k);
                }
                if names(new_s, k) {
                    let j = choose|j: int| 0 <= j < new_s.len() && #[trigger] new_s[j].0 == k;
                    if j < old_s.len() {
                        assert(old_s[j].0 == k);
                    }
                }
                if k == kv {
                    assert(new_s[old_s.len() as int].0 == k);
                }
            }
            assert forall|k: Seq<char>| #[trigger] names(new_s, k) implies entries_map(new_s)[k]
                == entries_map(old_s).insert(kv, vv)[k] by {
                if k == kv {
                    lemma_value_at(new_s, old_s.len() as int);
                } else {
                    let j = choose|j: int| 0 <= j < new_s.len() && #[trigger] new_s[j].0 == k;
                    lemma_value_at(new_s, j);
                    assert(old_s[j] == new_s[j]);
                    lemma_value_at(old_s, j);
                }
            }
            assert(entries_map(new_s) =~= entries_map(old_s).insert(kv, vv));
        },
    }
}

proof fn lemma_same_after_update(
    old_s: Seq<(Seq<char>, Seq<char>)>,
    new_s: Seq<(Seq<char>, Seq<char>)>,
    i: int,
    kv: Seq<char>,
    vv: Seq<char>,
)
    requires
        distinct_names(old_s),
        distinct_names(new_s),
        0 <= i < old_s.len(),
        old_s[i].0 == kv,
        new_s == old_s.update(i, (kv, vv)),
    ensures
        entries_map(new_s) == entries_map(old_s).insert(kv, vv),
{
    assert forall|k: Seq<char>| #[trigger] names(new_s, k) <==> names(old_s, k) by {
        if names(old_s, k) {
            let j = choose|j: int| 0 <= j < old_s.len() && #[trigger] old_s[j].0 == k;
            assert(new_s[j].0 == k);
        }
        if names(new_s, k) {
            let j = choose|j: int| 0 <= j < new_s.len() && #[trigger] new_s[j].0 == k;
            assert(old_s[j].0 == k);
        }
    }
    lemma_value_at(old_s, i);
    assert forall|k: Seq<char>| #[trigger] names(new_s, k) implies entries_map(new_s)[k]
        == entries_map(old_s).insert(kv, vv)[k] by {
        if k == kv {
            lemma_value_at(new_s, i);
        } else {
            let j = choose|j: int| 0 <= j < new_s.len() && #[trigger] new_s[j].0 == k;
            lemma_value_at(new_s, j);
            assert(old_s[j] == new_s[j]);
            lemma_value_at(old_s, j);
        }
    }
    assert(entries_map(new_s) =~= entries_map(old_s).insert(kv, vv));
}

impl VarMemory {
    /// No variable has two entries.
    #[verifier::type_invariant]
    spec fn wf(&self) -> bool {
        distinct_names(self.entries.deep_view())
    }

    /// An empty memory.
    pub fn new() -> (res: Self)
        ensures
            res@ == Map::<Seq<char>, Seq<char>>::empty(),
    {
        let res = VarMemory { entries: Vec::new() };
        assert(res@ =~= Map::<Seq<char>, Seq<char>>::empty());
        res
    }

    /// The value of the variable `key`, if it has one.
    pub fn get(&self, key: &String) -> (res: Option<String>)
        ensures
            res is Some <==> self@.contains_key(key@),
            res matches Some(v) ==> v@ == self@[key@],
    {
        proof {
            use_type_invariant(self);
        }
        match find_entry(&self.entries, key) {
            Some(i) => {
                proof {
                    lemma_value_at(self.entries.deep_view(), i as int);
                }
                Some(self.entries[i].1.clone())
            },
            None => None,
        }
    }

    /// Gives the variable `key` the value `value`, replacing any earlier one.
    pub fn insert(&mut self, key: String, value: String)
        ensures
            final(self)@ == old(self)@.insert(key@, value@),
    {
        proof {
            use_type_invariant(&*self);
        }
        let mut entries: Vec<(String, String)> = Vec::new();
        std::mem::swap(&mut entries, &mut self.entries);
        insert_entry(&mut entries, key, value);
        self.entries = entries;
    }
}

} // verus!
