use vstd::prelude::*;
use vstd::string::StringExecFns;
use crate::keyed::{find_key, lemma_key_count, Entry};

verus! {

/// An in-memory key/value map with a line-oriented command processor.
pub struct KeyValueStore {
    entries: Vec<Entry<String>>,
    map: Ghost<Map<Seq<char>, Seq<char>>>,
}

impl View for KeyValueStore {
    type V = Map<Seq<char>, Seq<char>>;

    closed spec fn view(&self) -> Map<Seq<char>, Seq<char>> {
        self.map@
    }
}

/// The text of the three parts, one after another.
fn join3(a: &str, b: &str, c: &str) -> (r: String)
    ensures
        r@ == a@ + b@ + c@,
{
    let mut s = a.to_owned();
    s.append(b);
    s.append(c);
    s
}

/// The reply to a command on a map holding `m`, as `process` gives it.
pub open spec fn reply(
    m: Map<Seq<char>, Seq<char>>,
    command: Seq<char>,
    key: Option<Seq<char>>,
    value: Option<Seq<char>>,
) -> Result<Seq<char>, Seq<char>> {
    if command == "set"@ {
        match (key, value) {
            (Some(k), Some(v)) => Ok("Value set for key "@ + k + "\n"@),
            (None, _) => Err("Must provide key\n"@),
            (_, None) => Err("Must provide value\n"@),
        }
    } else if command == "get"@ {
        match key {
            Some(k) => if m.contains_key(k) {
                Ok("Value for key "@ + k + ": "@ + m[k] + "\n"@)
            } else {
                Ok("No data found for key "@ + k + "\n"@)
            },
            None => Err("Must provide key\n"@),
        }
    } else if command == "delete"@ {
        match key {
            Some(k) => if m.contains_key(k) {
                Ok("Key "@ + k + " deleted\n"@)
            } else {
                Err("Key not in store\n"@)
            },
            None => Err("Must provide key\n"@),
        }
    } else {
        Err("Unknown command\n"@)
    }
}

/// The map after a command on a map holding `m`.
pub open spec fn after(
    m: Map<Seq<char>, Seq<char>>,
    command: Seq<char>,
    key: Option<Seq<char>>,
    value: Option<Seq<char>>,
) -> Map<Seq<char>, Seq<char>> {
    if command == "set"@ {
        match (key, value) {
            (Some(k), Some(v)) => m.insert(k, v),
            _ => m,
        }
    } else if command == "delete"@ {
        match key {
            Some(k) => m.remove(k),
            None => m,
        }
    } else {
        m
    }
}

pub open spec fn str_view(o: Option<&str>) -> Option<Seq<char>> {
    match o {
        Some(s) => Some(s@),
        None => None,
    }
}

pub open spec fn reply_view(r: Result<String, &'static str>) -> Result<Seq<char>, Seq<char>> {
    match r {
        Ok(s) => Ok(s@),
        Err(e) => Err(e@),
    }
}

impl KeyValueStore {
    /// Each key is held once, and the entries are exactly the mapping.
    pub closed spec fn wf(&self) -> bool {
        &&& forall|i: int, j: int|
            0 <= i < j < self.entries@.len() ==> (#[trigger] self.entries@[i]).key@ != (
            #[trigger] self.entries@[j]).key@
        &&& forall|i: int|
            0 <= i < self.entries@.len() ==> self.map@.contains_key(
                (#[trigger] self.entries@[i]).key@,
            ) && self.map@[self.entries@[i].key@] == self.entries@[i].value@
        &&& forall|k: Seq<char>|
            #[trigger] self.map@.contains_key(k) ==> exists|i: int|
                0 <= i < self.entries@.len() && (#[trigger] self.entries@[i]).key@ == k
    }

    /// An empty map.
    pub fn new() -> (r: KeyValueStore)
        ensures
            r.wf(),
            r@ == Map::<Seq<char>, Seq<char>>::empty(),
    {
        KeyValueStore { entries: Vec::new(), map: Ghost(Map::empty()) }
    }

    fn find(&self, key: &String) -> (r: Option<usize>)
        ensures
            match r {
                Some(i) => i < self.entries@.len() && self.entries@[i as int].key@ == key@,
                None => forall|i: int|
                    0 <= i < self.entries@.len() ==> (#[trigger] self.entries@[i]).key@ != key@,
            },
    {
        find_key(&self.entries, key)
    }

    /// Maps `key` to `value`, replacing any earlier value.
    pub fn set(&mut self, key: String, value: String)
        requires
            old(self).wf(),
        ensures
            final(self).wf(),
            final(self)@ == old(self)@.insert(key@, value@),
    {
        let ghost m = self.map@;
        let ghost (kv, vv) = (key@, value@);
        match self.find(&key) {
            Some(i) => {
                self.entries.set(i, Entry { key, value });
                proof {
                    let e = self.entries@;
                    assert forall|a: int, b: int| 0 <= a < b < e.len() implies (#[trigger] e[a]).key@
                        != (#[trigger] e[b]).key@ by {
                        assert(old(self).entries@[a].key@ != old(self).entries@[b].key@);
                    }
                    assert forall|k: Seq<char>| #[trigger] m.insert(kv, vv).contains_key(k) implies exists|a: int|
                        0 <= a < e.len() && (#[trigger] e[a]).key@ == k by {
                        if k != kv {
                            let a = choose|a: int| 0 <= a < e.len() && (#[trigger] old(self).entries@[a]).key@ == k;
                            assert(e[a].key@ == k);
                        } else {
                            assert(e[i as int].key@ == k);
                        }
                    }
                    assert forall|a: int| 0 <= a < e.len() implies m.insert(kv, vv).contains_key(
                        (#[trigger] e[a]).key@,
                    ) && m.insert(kv, vv)[e[a].key@] == e[a].value@ by {
                        if a != i {
                            assert(old(self).entries@[a].key@ != kv);
                        }
                    }
                }
            },
            None => {
                self.entries.push(Entry { key, value });
                proof {
                    let e = self.entries@;
                    let n = old(self).entries@.len() as int;
                    assert forall|a: int, b: int| 0 <= a < b < e.len() implies (#[trigger] e[a]).key@
                        != (#[trigger] e[b]).key@ by {
                        assert(e[a] == old(self).entries@[a]);
                        if b < n {
                            assert(e[b] == old(self).entries@[b]);
                        }
                    }
                    assert forall|k: Seq<char>| #[trigger] m.insert(kv, vv).contains_key(k) implies exists|a: int|
                        0 <= a < e.len() && (#[trigger] e[a]).key@ == k by {
                        if k != kv {
                            let a = choose|a: int| 0 <= a < n && (#[trigger] old(self).entries@[a]).key@ == k;
                            assert(e[a].key@ == k);
                        } else {
                            assert(e[n].key@ == k);
                        }
                    }
                    assert forall|a: int| 0 <= a < e.len() implies m.insert(kv, vv).contains_key(
                        (#[trigger] e[a]).key@,
                    ) && m.insert(kv, vv)[e[a].key@] == e[a].value@ by {
                        if a < n {
                            assert(e[a] == old(self).entries@[a]);
                        }
                    }
                }
            },
        }
        self.map = Ghost(m.insert(kv, vv));
        proof {
            let e = self.entries@;
            assert(forall|a: int, b: int| 0 <= a < b < e.len() ==> (#[trigger] e[a]).key@ != (#[trigger] e[b]).key@);
            assert(forall|a: int| 0 <= a < e.len() ==> self.map@.contains_key((#[trigger] e[a]).key@) && self.map@[e[a].key@] == e[a].value@);
        }
    }

    /// The value of `key`, if the map holds it.
    pub fn get(&self, key: &str) -> (r: Option<&String>)
        requires
            self.wf(),
        ensures
            match r {
                Some(v) => self@.contains_key(key@) && v@ == self@[key@],
                None => !self@.contains_key(key@),
            },
    {
        let k = key.to_owned();
        match self.find(&k) {
            Some(i) => Some(&self.entries[i].value),
            None => None,
        }
    }

    /// Takes `key` out of the map and returns its value, if the map held it.
    pub fn delete(&mut self, key: &str) -> (r: Option<String>)
        requires
            old(self).wf(),
        ensures
            final(self).wf(),
            final(self)@ == old(self)@.remove(key@),
            match r {
                Some(v) => old(self)@.contains_key(key@) && v@ == old(self)@[key@],
                None => !old(self)@.contains_key(key@),
            },
    {
        let k = key.to_owned();
        let ghost m = self.map@;
        match self.find(&k) {
            Some(i) => {
                let p = self.entries.remove(i);
                proof {
                    let e = self.entries@;
                    let o = old(self).entries@;
                    assert forall|a: int| 0 <= a < e.len() implies #[trigger] e[a] == o[if a < i {
                        a
                    } else {
                        a + 1
                    }] by {}
                    assert forall|a: int| 0 <= a < e.len() implies (#[trigger] e[a]).key@ != key@ by {
                        let a2 = if a < i { a } else { a + 1 };
                        if a2 < i {
                            assert(o[a2].key@ != o[i as int].key@);
                        } else {
                            assert(o[i as int].key@ != o[a2].key@);
                        }
                    }
                    assert forall|a: int, b: int| 0 <= a < b < e.len() implies (#[trigger] e[a]).key@
                        != (#[trigger] e[b]).key@ by {
                        let a2 = if a < i { a } else { a + 1 };
                        let b2 = if b < i { b } else { b + 1 };
                        assert(o[a2].key@ != o[b2].key@);
                    }
                    assert forall|a: int| 0 <= a < e.len() implies m.remove(key@).contains_key(
                        (#[trigger] e[a]).key@,
                    ) && m.remove(key@)[e[a].key@] == e[a].value@ by {
                        let a2 = if a < i { a } else { a + 1 };
                        assert(e[a] == o[a2]);
                    }
                    assert forall|k2: Seq<char>| #[trigger] m.remove(key@).contains_key(k2) implies exists|a: int|
                        0 <= a < e.len() && (#[trigger] e[a]).key@ == k2 by {
                        let j = choose|j: int| 0 <= j < o.len() && (#[trigger] o[j]).key@ == k2;
                        assert(j != i);
                        let a = if j < i { j } else { j - 1 };
                        assert(e[a] == o[j]);
                    }
                }
                self.map = Ghost(m.remove(key@));
                assert(self.wf());
                Some(p.value)
            },
            None => {
                proof {
                    assert(m.remove(key@) =~= m);
                    assert(self.wf());
                }
                None
            },
        }
    }

    /// Every key with its value.
    pub fn entries(&self) -> (r: Vec<(String, String)>)
        requires
            self.wf(),
        ensures
            r@.len() == self@.dom().len(),
            forall|i: int|
                0 <= i < r@.len() ==> self@.contains_key((#[trigger] r@[i]).0@) && self@[r@[i].0@]
                    == r@[i].1@,
            forall|k: Seq<char>|
                #[trigger] self@.contains_key(k) ==> exists|i: int|
                    0 <= i < r@.len() && (#[trigger] r@[i]).0@ == k,
    {
        let mut out: Vec<(String, String)> = Vec::new();
        let mut i: usize = 0;
        while i < self.entries.len()
            invariant
                self.wf(),
                0 <= i <= self.entries@.len(),
                out@.len() == i,
                forall|j: int|
                    0 <= j < i ==> (#[trigger] out@[j]).0@ == self.entries@[j].key@ && out@[j].1@
                        == self.entries@[j].value@,
            decreases self.entries@.len() - i,
        {
            let p = &self.entries[i];
            out.push((p.key.clone(), p.value.clone()));
            i = i + 1;
        }
        proof {
            assert forall|k: Seq<char>| #[trigger] self@.contains_key(k) implies exists|j: int|
                0 <= j < out@.len() && (#[trigger] out@[j]).0@ == k by {
                let j = choose|j: int| 0 <= j < self.entries@.len() && (#[trigger] self.entries@[j]).key@ == k;
                assert(out@[j].0@ == k);
            }
            assert forall|j: int| 0 <= j < out@.len() implies self@.contains_key((#[trigger] out@[j]).0@)
                && self@[out@[j].0@] == out@[j].1@ by {
                assert(self.entries@[j].key@ == out@[j].0@);
            }
            lemma_key_count(self.entries@, self.map@);
        }
        out
    }

    /// Runs one command (`set`, `get` or `delete`) on the map and returns the
    /// line to show, or the reason it was refused.
    pub fn process(&mut self, command: String, kv: (&Option<&str>, &Option<&str>)) -> (r: Result<
        String,
        &'static str,
    >)
        requires
            old(self).wf(),
        ensures
            final(self).wf(),
            reply_view(r) == reply(old(self)@, command@, str_view(*kv.0), str_view(*kv.1)),
            final(self)@ == after(old(self)@, command@, str_view(*kv.0), str_view(*kv.1)),
    {
        proof {
            reveal_strlit("set");
            reveal_strlit("get");
            reveal_strlit("delete");
        }
        let ghost m = self@;
        if command == "set".to_owned() {
            match kv {
                (Some(key), Some(value)) => {
                    self.set((*key).to_owned(), (*value).to_owned());
                    Ok(join3("Value set for key ", *key, "\n"))
                },
                (None, _) => Err("Must provide key\n"),
                (_, None) => Err("Must provide value\n"),
            }
        } else if command == "get".to_owned() {
            assert(command@ != "set"@ && command@ != "delete"@) by {
                assert(command@.len() != "delete"@.len());
            }
            assert(self@ == after(m, command@, str_view(*kv.0), str_view(*kv.1)));
            match kv.0 {
                Some(key) => match self.get(*key) {
                    Some(value) => {
                        let mut s = join3("Value for key ", *key, ": ");
                        s.append(value.as_str());
                        s.append("\n");
                        Ok(s)
                    },
                    None => Ok(join3("No data found for key ", *key, "\n")),
                },
                None => Err("Must provide key\n"),
            }
        } else if command == "delete".to_owned() {
            match kv.0 {
                Some(key) => {
                    if self.delete(*key).is_some() {
                        Ok(join3("Key ", *key, " deleted\n"))
                    } else {
                        Err("Key not in store\n")
                    }
                },
                None => Err("Must provide key\n"),
            }
        } else {
            Err("Unknown command\n")
        }
    }
}

/// Runs one command on a fresh, empty map.
pub fn run(command: String, kv: (&Option<&str>, &Option<&str>)) -> (r: Result<String, &'static str>)
    ensures
        reply_view(r) == reply(Map::empty(), command@, str_view(*kv.0), str_view(*kv.1)),
{
    let mut store = KeyValueStore::new();
    store.process(command, kv)
}

} // verus!
