//! The flattening engine and the flat store built from it.
//!
//! A [`Backend`] holds a flat mapping from dot-joined composite keys to leaf
//! strings, built once by flattening a parsed document tree and afterwards
//! readable and writable by full dotted key.

use vstd::prelude::*;

use crate::document::{Entry, KeyNode, Node};
use crate::errors::Error;

verus! {

/// The mathematical contents of a flat store: later entries win on a
/// repeated key, so a well-formed store (unique keys) loses nothing.
pub open spec fn map_of(s: Seq<(String, String)>) -> Map<Seq<char>, Seq<char>>
    decreases s.len(),
{
    if s.len() == 0 {
        Map::empty()
    } else {
        map_of(s.drop_last()).insert(s.last().0@, s.last().1@)
    }
}

/// Whether some entry of `s` carries the key `k`.
pub open spec fn has_key(s: Seq<(String, String)>, k: Seq<char>) -> bool {
    exists|i: int| 0 <= i < s.len() && s[i].0@ == k
}

/// Whether the keys of `s` are pairwise distinct.
pub open spec fn unique_keys(s: Seq<(String, String)>) -> bool {
    forall|i: int, j: int| 0 <= i < j < s.len() ==> s[i].0@ != s[j].0@
}

/// The domain of `map_of(s)` is exactly the set of keys of the entries of `s`.
proof fn lemma_map_of_dom(s: Seq<(String, String)>)
    ensures
        forall|k: Seq<char>| #[trigger] map_of(s).contains_key(k) <==> has_key(s, k),
    decreases s.len(),
{
    if s.len() > 0 {
        lemma_map_of_dom(s.drop_last());
        assert forall|k: Seq<char>| #[trigger] map_of(s).contains_key(k) implies has_key(s, k) by {
            if k == s.last().0@ {
                assert(s[s.len() - 1].0@ == k);
            } else {
                assert(map_of(s.drop_last()).contains_key(k));
                assert(has_key(s.drop_last(), k));
                let i = choose|i: int| 0 <= i < s.drop_last().len() && s.drop_last()[i].0@ == k;
                assert(s.drop_last()[i] == s[i]);
                assert(s[i].0@ == k);
            }
        }
        assert forall|k: Seq<char>| has_key(s, k) implies #[trigger] map_of(s).contains_key(k) by {
            let i = choose|i: int| 0 <= i < s.len() && s[i].0@ == k;
            if i < s.len() - 1 {
                assert(s.drop_last()[i] == s[i]);
                assert(has_key(s.drop_last(), k));
                assert(map_of(s.drop_last()).contains_key(k));
            }
        }
    }
}

/// Where the key of entry `i` has no later occurrence, `map_of` holds that
/// entry's value under that key.
proof fn lemma_map_of_at(s: Seq<(String, String)>, i: int)
    requires
        0 <= i < s.len(),
        forall|j: int| i < j < s.len() ==> s[j].0@ != s[i].0@,
    ensures
        map_of(s).contains_key(s[i].0@),
        map_of(s)[s[i].0@] == s[i].1@,
    decreases s.len(),
{
    if i < s.len() - 1 {
        assert(s[s.len() - 1].0@ != s[i].0@);
        lemma_map_of_at(s.drop_last(), i);
        assert(s.drop_last()[i] == s[i]);
    }
}

/// Replacing the entry at `i` by one with the same key updates `map_of`
/// exactly as a map insert does.
proof fn lemma_map_of_update(s: Seq<(String, String)>, i: int, p: (String, String))
    requires
        0 <= i < s.len(),
        s[i].0@ == p.0@,
        unique_keys(s),
    ensures
        map_of(s.update(i, p)) == map_of(s).insert(p.0@, p.1@),
    decreases s.len(),
{
    let t = s.update(i, p);
    if i == s.len() - 1 {
        assert(t.drop_last() == s.drop_last());
        assert(t.last() == p);
        assert(map_of(t) == map_of(s.drop_last()).insert(p.0@, p.1@));
        assert(map_of(s).insert(p.0@, p.1@) =~= map_of(s.drop_last()).insert(p.0@, p.1@));
    } else {
        assert(s[i].0@ != s[s.len() - 1].0@);
        assert(t.drop_last() == s.drop_last().update(i, p));
        assert(t.last() == s.last());
        lemma_map_of_update(s.drop_last(), i, p);
        assert(map_of(t) == map_of(s.drop_last()).insert(p.0@, p.1@).insert(s.last().0@, s.last().1@));
        assert(map_of(s.drop_last()).insert(p.0@, p.1@).insert(s.last().0@, s.last().1@) =~= map_of(
            s,
        ).insert(p.0@, p.1@));
    }
}

/// With pairwise distinct keys, the flat store holds exactly one entry per
/// key of its contents.
proof fn lemma_map_of_len(s: Seq<(String, String)>)
    requires
        unique_keys(s),
    ensures
        map_of(s).dom().finite(),
        map_of(s).dom().len() == s.len(),
    decreases s.len(),
{
    if s.len() > 0 {
        lemma_map_of_len(s.drop_last());
        lemma_map_of_dom(s.drop_last());
        assert(!has_key(s.drop_last(), s.last().0@));
        assert(map_of(s).dom() =~= map_of(s.drop_last()).dom().insert(s.last().0@));
    }
}

/// The composite key for `key` under `prefix`: the key itself at the root,
/// the dot-joined concatenation below it.
pub open spec fn joined(prefix: Seq<char>, key: Seq<char>) -> Seq<char> {
    if prefix.len() == 0 {
        key
    } else {
        prefix + "."@ + key
    }
}

/// What flattening the entries of one mapping node under `prefix` yields:
/// the flat mapping of every string leaf below, keyed by its dot-joined path,
/// or the first structural violation in depth-first document order.
///
/// Entries are processed in document order and a later entry wins on a
/// repeated composite key. An error anywhere below aborts the whole flatten:
/// a failure inside a nested mapping propagates instead of being dropped.
pub open spec fn flat_of(entries: Seq<Entry>, prefix: Seq<char>) -> Result<
    Map<Seq<char>, Seq<char>>,
    Error,
>
    decreases entries,
    via flat_of_decreases
{
    if entries.len() == 0 {
        Ok(Map::empty())
    } else {
        match entries[0].key {
            KeyNode::Other => Err(Error::UnexpectedKey),
            KeyNode::Str(k) => match entries[0].value {
                Node::Str(v) => match flat_of(entries.drop_first(), prefix) {
                    Ok(m) => Ok(
                        Map::empty().insert(joined(prefix, k@), v@).union_prefer_right(m),
                    ),
                    Err(e) => Err(e),
                },
                Node::Mapping(sub) => match flat_of(sub@, joined(prefix, k@)) {
                    Ok(m1) => match flat_of(entries.drop_first(), prefix) {
                        Ok(m2) => Ok(m1.union_prefer_right(m2)),
                        Err(e) => Err(e),
                    },
                    Err(e) => Err(e),
                },
                Node::Other => Err(Error::UnexpectedValue),
            },
        }
    }
}

#[via_fn]
proof fn flat_of_decreases(entries: Seq<Entry>, prefix: Seq<char>) {
    if entries.len() > 0 {
        assert(decreases_to!(entries => entries[0]));
        match entries[0].value {
            Node::Mapping(sub) => {
                assert(decreases_to!(entries[0] => sub));
                assert(decreases_to!(sub => sub@));
                assert(decreases_to!(entries => sub@));
            },
            _ => {},
        }
    }
}

/// `union_prefer_right` is associative.
proof fn lemma_union_assoc(
    a: Map<Seq<char>, Seq<char>>,
    b: Map<Seq<char>, Seq<char>>,
    c: Map<Seq<char>, Seq<char>>,
)
    ensures
        a.union_prefer_right(b).union_prefer_right(c) == a.union_prefer_right(
            b.union_prefer_right(c),
        ),
{
    assert(a.union_prefer_right(b).union_prefer_right(c) =~= a.union_prefer_right(
        b.union_prefer_right(c),
    ));
}

/// Flattening a sequence of entries splits at any point `i`: the whole result
/// is the first error of the two halves in order, or the union of their
/// mappings with the later half winning.
proof fn lemma_flat_of_split(s: Seq<Entry>, prefix: Seq<char>, i: int)
    requires
        0 <= i <= s.len(),
    ensures
        match flat_of(s.take(i), prefix) {
            Err(e) => flat_of(s, prefix) == Err::<Map<Seq<char>, Seq<char>>, Error>(e),
            Ok(m1) => match flat_of(s.skip(i), prefix) {
                Err(e) => flat_of(s, prefix) == Err::<Map<Seq<char>, Seq<char>>, Error>(e),
                Ok(m2) => flat_of(s, prefix) == Ok::<Map<Seq<char>, Seq<char>>, Error>(
                    m1.union_prefer_right(m2),
                ),
            },
        },
    decreases i,
{
    if i == 0 {
        assert(s.take(0) =~= Seq::<Entry>::empty());
        assert(s.skip(0) =~= s);
        match flat_of(s, prefix) {
            Ok(m2) => {
                assert(Map::<Seq<char>, Seq<char>>::empty().union_prefer_right(m2) =~= m2);
            },
            Err(_) => {},
        }
    } else {
        let rest = s.drop_first();
        lemma_flat_of_split(rest, prefix, i - 1);
        assert(s.take(i).drop_first() =~= rest.take(i - 1));
        assert(s.skip(i) =~= rest.skip(i - 1));
        assert(s.take(i)[0] == s[0]);
        match s[0].key {
            KeyNode::Other => {},
            KeyNode::Str(k) => match s[0].value {
                Node::Str(v) => {
                    let ins = Map::<Seq<char>, Seq<char>>::empty().insert(joined(prefix, k@), v@);
                    match flat_of(rest.take(i - 1), prefix) {
                        Ok(m1) => match flat_of(rest.skip(i - 1), prefix) {
                            Ok(m2) => {
                                lemma_union_assoc(ins, m1, m2);
                            },
                            Err(_) => {},
                        },
                        Err(_) => {},
                    }
                },
                Node::Mapping(sub) => {
                    match flat_of(sub@, joined(prefix, k@)) {
                        Ok(mh) => match flat_of(rest.take(i - 1), prefix) {
                            Ok(m1) => match flat_of(rest.skip(i - 1), prefix) {
                                Ok(m2) => {
                                    lemma_union_assoc(mh, m1, m2);
                                },
                                Err(_) => {},
                            },
                            Err(_) => {},
                        },
                        Err(_) => {},
                    }
                },
                Node::Other => {},
            },
        }
    }
}

/// A flat store of string values addressed by full dotted key.
///
/// Built by one successful flatten; afterwards `get` and `set` are plain map
/// operations with no failure mode beyond an absent key.
#[derive(Debug)]
pub struct Backend {
    database: Vec<(String, String)>,
}

/// Whether two stores hold the same entries, in the same order.
pub closed spec fn same_entries(a: &Backend, b: &Backend) -> bool {
    a.database@.len() == b.database@.len() && forall|j: int|
        0 <= j < a.database@.len() ==> a.database@[j].0@ == b.database@[j].0@
            && a.database@[j].1@ == b.database@[j].1@
}

/// `map_of` depends only on the text of keys and values.
proof fn lemma_map_of_congruence(s1: Seq<(String, String)>, s2: Seq<(String, String)>)
    requires
        s1.len() == s2.len(),
        forall|j: int| 0 <= j < s1.len() ==> s1[j].0@ == s2[j].0@ && s1[j].1@ == s2[j].1@,
    ensures
        map_of(s1) == map_of(s2),
    decreases s1.len(),
{
    if s1.len() > 0 {
        assert forall|j: int| 0 <= j < s1.drop_last().len() implies s1.drop_last()[j].0@
            == s2.drop_last()[j].0@ && s1.drop_last()[j].1@ == s2.drop_last()[j].1@ by {
            assert(s1.drop_last()[j] == s1[j]);
            assert(s2.drop_last()[j] == s2[j]);
        }
        lemma_map_of_congruence(s1.drop_last(), s2.drop_last());
        assert(s1[s1.len() - 1].0@ == s2[s2.len() - 1].0@);
        assert(s1[s1.len() - 1].1@ == s2[s2.len() - 1].1@);
    }
}

/// Stores that compare equal hold the same flat mapping.
pub proof fn lemma_same_entries_same_map(a: &Backend, b: &Backend)
    requires
        same_entries(a, b),
    ensures
        a@ == b@,
{
    lemma_map_of_congruence(a.database@, b.database@);
}

impl vstd::std_specs::cmp::PartialEqSpecImpl for Backend {
    open spec fn obeys_eq_spec() -> bool {
        true
    }

    open spec fn eq_spec(&self, other: &Backend) -> bool {
        same_entries(self, other)
    }
}

impl PartialEq for Backend {
    /// Two stores compare equal when they hold the same entries in the same
    /// order.
    fn eq(&self, other: &Backend) -> (r: bool) {
        let n = self.database.len();
        if n != other.database.len() {
            return false;
        }
        let mut i: usize = 0;
        while i < n
            invariant
                n == self.database@.len(),
                n == other.database@.len(),
                i <= n,
                forall|j: int|
                    0 <= j < i ==> self.database@[j].0@ == other.database@[j].0@
                        && self.database@[j].1@ == other.database@[j].1@,
            decreases n - i,
        {
            let ours = &self.database[i];
            let theirs = &other.database[i];
            if !(ours.0 == theirs.0) || !(ours.1 == theirs.1) {
                return false;
            }
            i += 1;
        }
        true
    }
}

impl View for Backend {
    type V = Map<Seq<char>, Seq<char>>;

    closed spec fn view(&self) -> Map<Seq<char>, Seq<char>> {
        map_of(self.database@)
    }
}

impl Backend {
    /// Well-formedness: no two entries share a key, so every key names one value.
    pub closed spec fn wf(&self) -> bool {
        unique_keys(self.database@)
    }

    /// An empty store.
    pub fn new() -> (r: Backend)
        ensures
            r.wf(),
            r@ == Map::<Seq<char>, Seq<char>>::empty(),
    {
        Backend { database: Vec::new() }
    }

    /// How many keys the store holds.
    pub fn len(&self) -> (r: usize)
        requires
            self.wf(),
        ensures
            self@.dom().finite(),
            r == self@.dom().len(),
    {
        proof {
            lemma_map_of_len(self.database@);
        }
        self.database.len()
    }

    /// Get the value at the dotted-path `key`.
    ///
    /// Returns `Some(val)` if the `key` exists in the database, `None` otherwise.
    pub fn get(&self, key: &String) -> (r: Option<&String>)
        requires
            self.wf(),
        ensures
            match r {
                Some(v) => self@.contains_key(key@) && self@[key@] == v@,
                None => !self@.contains_key(key@),
            },
    {
        let n = self.database.len();
        let mut i: usize = 0;
        while i < n
            invariant
                self.wf(),
                n == self.database@.len(),
                i <= n,
                forall|j: int| 0 <= j < i ==> self.database@[j].0@ != key@,
            decreases n - i,
        {
            if self.database[i].0 == *key {
                proof {
                    lemma_map_of_at(self.database@, i as int);
                }
                return Some(&self.database[i].1);
            }
            i += 1;
        }
        proof {
            lemma_map_of_dom(self.database@);
        }
        None
    }

    /// Set the dotted-path `key` to the given `val`, inserting or overwriting.
    ///
    /// Returns `Some(old_val)` if the `key` existed in the database, `None` if
    /// it did not. The key's shape is not validated: a caller may introduce
    /// keys that correspond to no document path.
    pub fn set(&mut self, key: String, val: String) -> (r: Option<String>)
        requires
            old(self).wf(),
        ensures
            final(self).wf(),
            final(self)@ == old(self)@.insert(key@, val@),
            (r is Some) == old(self)@.contains_key(key@),
            r matches Some(v) ==> v@ == old(self)@[key@],
    {
        let n = self.database.len();
        let mut i: usize = 0;
        while i < n
            invariant
                *self == *old(self),
                old(self).wf(),
                n == self.database@.len(),
                i <= n,
                forall|j: int| 0 <= j < i ==> self.database@[j].0@ != key@,
            decreases n - i,
        {
            if self.database[i].0 == key {
                let prev = self.database[i].1.clone();
                let ghost s0 = self.database@;
                proof {
                    assert(unique_keys(s0));
                    assert forall|j: int| i < j < s0.len() implies s0[j].0@ != s0[i as int].0@ by {
                        assert(s0[i as int].0@ != s0[j].0@);
                    }
                    lemma_map_of_at(s0, i as int);
                    lemma_map_of_update(s0, i as int, (key, val));
                }
                self.database.set(i, (key, val));
                return Some(prev);
            }
            i += 1;
        }
        let ghost s0 = self.database@;
        proof {
            lemma_map_of_dom(s0);
        }
        self.database.push((key, val));
        proof {
            assert(self.database@.drop_last() == s0);
        }
        None
    }

    /// Create a new `Backend` from a `&str`.
    ///
    /// The text is parsed, the first document's top-level value must be a
    /// mapping, and that mapping is flattened. Construction either fully
    /// succeeds with the flat mapping of the whole tree, or fails with a
    /// `Parse` error carrying the scanner's diagnostic, `NotAMapping` where
    /// the text holds no document or its first document is not a mapping, or
    /// the first structural violation found while flattening.
    pub fn from_str(buf: &str) -> (r: Result<Backend, Error>)
        ensures
            (r is Ok) == (success_map(buf@) is Some),
            r matches Ok(b) ==> b.wf() && Some(b@) == success_map(buf@),
            r matches Err(e) ==> match e {
                Error::Parse(m) => crate::document::parsed_docs(buf@) matches Err(d) && m@ == d,
                Error::NotAMapping => crate::document::parsed_docs(buf@) is Ok && doc_entries(buf@)
                    is None,
                Error::UnexpectedKey | Error::UnexpectedValue => doc_entries(buf@) matches Some(es)
                    && flat_of(es, Seq::empty()) == Err::<Map<Seq<char>, Seq<char>>, Error>(e),
                Error::Io(_) => false,
            },
    {
        let docs = match crate::document::parse_documents(buf) {
            Ok(docs) => docs,
            Err(m) => {
                return Err(Error::Parse(m));
            },
        };
        if docs.len() == 0 {
            return Err(Error::NotAMapping);
        }
        match &docs[0] {
            Node::Mapping(entries) => {
                proof {
                    lemma_flat_of_err_kind(entries@, Seq::empty());
                }
                flatten(entries)
            },
            _ => Err(Error::NotAMapping),
        }
    }
}

/// The first parsed document's mapping entries, where the text parses and
/// the top-level value of its first document is a mapping.
pub open spec fn doc_entries(text: Seq<char>) -> Option<Seq<Entry>> {
    match crate::document::parsed_docs(text) {
        Ok(ds) => if ds.len() > 0 {
            match ds[0] {
                Node::Mapping(v) => Some(v@),
                _ => None,
            }
        } else {
            None
        },
        Err(_) => None,
    }
}

/// The flat mapping that construction from `text` yields, where it succeeds;
/// a function of the text alone.
pub open spec fn success_map(text: Seq<char>) -> Option<Map<Seq<char>, Seq<char>>> {
    match doc_entries(text) {
        Some(es) => match flat_of(es, Seq::empty()) {
            Ok(m) => Some(m),
            Err(_) => None,
        },
        None => None,
    }
}

/// A flattening error is one of the two structural violations.
proof fn lemma_flat_of_err_kind(s: Seq<Entry>, prefix: Seq<char>)
    ensures
        flat_of(s, prefix) matches Err(e) ==> (e == Error::UnexpectedKey || e
            == Error::UnexpectedValue),
    decreases s,
{
    if s.len() > 0 {
        assert(decreases_to!(s => s[0]));
        match s[0].key {
            KeyNode::Str(k) => match s[0].value {
                Node::Str(_) => {
                    lemma_flat_of_err_kind(s.drop_first(), prefix);
                },
                Node::Mapping(sub) => {
                    assert(decreases_to!(s[0] => sub));
                    assert(decreases_to!(sub => sub@));
                    assert(decreases_to!(s => sub@));
                    lemma_flat_of_err_kind(sub@, joined(prefix, k@));
                    lemma_flat_of_err_kind(s.drop_first(), prefix);
                },
                Node::Other => {},
            },
            KeyNode::Other => {},
        }
    }
}

/// Depth-first walk over one mapping's entries: validates every key and leaf
/// and inserts each string leaf into `database` under its composite key.
///
/// A failure inside a nested mapping propagates and aborts the whole walk.
fn flatten_helper(entries: &Vec<Entry>, database: &mut Backend, prefix: &String) -> (r: Result<
    (),
    Error,
>)
    requires
        old(database).wf(),
    ensures
        r is Ok ==> final(database).wf() && (flat_of(entries@, prefix@) matches Ok(m)
            && final(database)@ == old(database)@.union_prefer_right(m)),
        r matches Err(e) ==> flat_of(entries@, prefix@) == Err::<
            Map<Seq<char>, Seq<char>>,
            Error,
        >(e),
    decreases entries@,
{
    let ghost s = entries@;
    let ghost m0 = database@;
    let n = entries.len();
    let mut i: usize = 0;
    while i < n
        invariant
            s == entries@,
            m0 == old(database)@,
            n == s.len(),
            i <= n,
            database.wf(),
            flat_of(s.take(i as int), prefix@) matches Ok(m) && database@ == m0.union_prefer_right(
                m,
            ),
        decreases n - i,
    {
        let ghost md = flat_of(s.take(i as int), prefix@)->Ok_0;
        let e = &entries[i];
        let k = match &e.key {
            KeyNode::Str(k) => k,
            KeyNode::Other => {
                proof {
                    lemma_flat_of_split(s, prefix@, i as int);
                    assert(s.skip(i as int)[0] == s[i as int]);
                }
                return Err(Error::UnexpectedKey);
            },
        };
        let accumulated_key: String = if prefix.as_str().is_empty() {
            k.clone()
        } else {
            let mut a = prefix.clone();
            a.append(".");
            a.append(k.as_str());
            a
        };
        assert(accumulated_key@ == joined(prefix@, k@));
        match &e.value {
            Node::Mapping(sub) => {
                proof {
                    assert(decreases_to!(s => s[i as int]));
                    match s[i as int].value {
                        Node::Mapping(sv) => {
                            assert(decreases_to!(s[i as int] => sv));
                            assert(decreases_to!(sv => sv@));
                            assert(decreases_to!(s => sv@));
                        },
                        _ => {},
                    }
                }
                match flatten_helper(sub, database, &accumulated_key) {
                    Ok(_) => {
                        proof {
                            let msub = flat_of(sub@, accumulated_key@)->Ok_0;
                            let t = s.take(i + 1);
                            lemma_flat_of_split(t, prefix@, i as int);
                            assert(t.take(i as int) =~= s.take(i as int));
                            assert(t.skip(i as int) =~= seq![s[i as int]]);
                            assert(t.skip(i as int).drop_first() =~= Seq::<Entry>::empty());
                            assert(t.skip(i as int)[0] == s[i as int]);
                            assert(flat_of(t.skip(i as int).drop_first(), prefix@) == Ok::<
                                Map<Seq<char>, Seq<char>>,
                                Error,
                            >(Map::empty()));
                            assert(flat_of(t.skip(i as int), prefix@) == Ok::<
                                Map<Seq<char>, Seq<char>>,
                                Error,
                            >(msub.union_prefer_right(Map::empty())));
                            assert(database@ == m0.union_prefer_right(md).union_prefer_right(msub));
                            assert(m0.union_prefer_right(md).union_prefer_right(msub)
                                =~= m0.union_prefer_right(
                                md.union_prefer_right(msub.union_prefer_right(Map::empty())),
                            ));
                        }
                    },
                    Err(err) => {
                        proof {
                            lemma_flat_of_split(s, prefix@, i as int);
                            assert(s.skip(i as int)[0] == s[i as int]);
                        }
                        return Err(err);
                    },
                }
            },
            Node::Str(translation) => {
                let _ = database.set(accumulated_key, translation.clone());
                proof {
                    let acc = joined(prefix@, k@);
                    let ins = Map::<Seq<char>, Seq<char>>::empty().insert(acc, translation@);
                    let t = s.take(i + 1);
                    lemma_flat_of_split(t, prefix@, i as int);
                    assert(t.take(i as int) =~= s.take(i as int));
                    assert(t.skip(i as int) =~= seq![s[i as int]]);
                    assert(t.skip(i as int).drop_first() =~= Seq::<Entry>::empty());
                    assert(t.skip(i as int)[0] == s[i as int]);
                    assert(flat_of(t.skip(i as int).drop_first(), prefix@) == Ok::<
                        Map<Seq<char>, Seq<char>>,
                        Error,
                    >(Map::empty()));
                    assert(flat_of(t.skip(i as int), prefix@) == Ok::<
                        Map<Seq<char>, Seq<char>>,
                        Error,
                    >(ins.union_prefer_right(Map::empty())));
                    assert(database@ == m0.union_prefer_right(md).insert(acc, translation@));
                    assert(m0.union_prefer_right(md).insert(acc, translation@)
                        =~= m0.union_prefer_right(
                        md.union_prefer_right(ins.union_prefer_right(Map::empty())),
                    ));
                }
            },
            Node::Other => {
                proof {
                    lemma_flat_of_split(s, prefix@, i as int);
                    assert(s.skip(i as int)[0] == s[i as int]);
                }
                return Err(Error::UnexpectedValue);
            },
        }
        i += 1;
    }
    proof {
        assert(s.take(n as int) =~= s);
    }
    Ok(())
}

/// Flatten a validated root mapping's entries into a fresh store, or fail
/// with the first structural violation in depth-first document order.
pub fn flatten(entries: &Vec<Entry>) -> (r: Result<Backend, Error>)
    ensures
        r matches Ok(b) ==> b.wf() && flat_of(entries@, Seq::empty()) == Ok::<
            Map<Seq<char>, Seq<char>>,
            Error,
        >(b@),
        r matches Err(e) ==> flat_of(entries@, Seq::empty()) == Err::<
            Map<Seq<char>, Seq<char>>,
            Error,
        >(e),
{
    let mut database = Backend::new();
    let prefix = String::new();
    match flatten_helper(entries, &mut database, &prefix) {
        Ok(_) => {
            proof {
                let m = flat_of(entries@, Seq::<char>::empty())->Ok_0;
                assert(Map::<Seq<char>, Seq<char>>::empty().union_prefer_right(m) =~= m);
            }
            Ok(database)
        },
        Err(e) => Err(e),
    }
}
/// Whether `e` carries the first key of `path` and descends along the rest
/// of it, through nested mappings, to a string leaf with text `v`.
pub open spec fn entry_leads(e: Entry, path: Seq<Seq<char>>, v: Seq<char>) -> bool
    decreases path.len(), 0int,
{
    path.len() > 0 && match e.key {
        KeyNode::Str(k) => k@ == path[0] && (if path.len() == 1 {
            e.value matches Node::Str(s) && s@ == v
        } else {
            e.value matches Node::Mapping(sub) && leads_to_leaf(sub@, path.drop_first(), v)
        }),
        KeyNode::Other => false,
    }
}

/// Whether, among `entries`, the path of keys `path` descends through nested
/// mappings to a string leaf with text `v`.
pub open spec fn leads_to_leaf(entries: Seq<Entry>, path: Seq<Seq<char>>, v: Seq<char>) -> bool
    decreases path.len(), entries.len(),
{
    entries.len() > 0 && (entry_leads(entries[0], path, v) || leads_to_leaf(
        entries.drop_first(),
        path,
        v,
    ))
}

/// The dot-joined concatenation of a path of keys.
pub open spec fn join_path(path: Seq<Seq<char>>) -> Seq<char>
    decreases path.len(),
{
    if path.len() == 0 {
        Seq::empty()
    } else if path.len() == 1 {
        path[0]
    } else {
        path[0] + "."@ + join_path(path.drop_first())
    }
}

/// Whether every mapping key in the tree, where it is a string, is non-empty.
pub open spec fn nonempty_keys(entries: Seq<Entry>) -> bool
    decreases entries,
    via nonempty_keys_decreases
{
    if entries.len() == 0 {
        true
    } else {
        (match entries[0].key {
            KeyNode::Str(k) => k@.len() > 0,
            KeyNode::Other => true,
        }) && (match entries[0].value {
            Node::Mapping(sub) => nonempty_keys(sub@),
            _ => true,
        }) && nonempty_keys(entries.drop_first())
    }
}

#[via_fn]
proof fn nonempty_keys_decreases(entries: Seq<Entry>) {
    if entries.len() > 0 {
        assert(decreases_to!(entries => entries[0]));
        match entries[0].value {
            Node::Mapping(sub) => {
                assert(decreases_to!(entries[0] => sub));
                assert(decreases_to!(sub => sub@));
                assert(decreases_to!(entries => sub@));
            },
            _ => {},
        }
    }
}

/// Prepending a non-empty key to a path moves it into the prefix: dot-joining
/// is associative.
proof fn lemma_join_path_cons(prefix: Seq<char>, k: Seq<char>, path: Seq<Seq<char>>)
    requires
        k.len() > 0,
        path.len() > 0,
    ensures
        joined(prefix, join_path(seq![k] + path)) == joined(joined(prefix, k), join_path(path)),
{
    assert((seq![k] + path).drop_first() =~= path);
    assert((seq![k] + path)[0] == k);
    assert(join_path(seq![k] + path) == k + "."@ + join_path(path));
    if prefix.len() == 0 {
        assert(joined(k, join_path(path)) == k + "."@ + join_path(path));
    } else {
        assert(prefix + "."@ + (k + "."@ + join_path(path)) =~= (prefix + "."@ + k) + "."@
            + join_path(path));
    }
}

/// A path always has at least one key.
proof fn lemma_leads_nonempty(entries: Seq<Entry>, path: Seq<Seq<char>>, v: Seq<char>)
    requires
        leads_to_leaf(entries, path, v),
    ensures
        path.len() > 0,
    decreases entries.len(),
{
    if !entry_leads(entries[0], path, v) {
        lemma_leads_nonempty(entries.drop_first(), path, v);
    }
}

/// For each key that a successful flatten produced, a path of keys that
/// descends to a string leaf holding the mapped value, whose dot-joined form
/// under `prefix` is that key.
proof fn lemma_flat_value_path(
    entries: Seq<Entry>,
    prefix: Seq<char>,
    m: Map<Seq<char>, Seq<char>>,
    ck: Seq<char>,
) -> (path: Seq<Seq<char>>)
    requires
        nonempty_keys(entries),
        flat_of(entries, prefix) == Ok::<Map<Seq<char>, Seq<char>>, Error>(m),
        m.contains_key(ck),
    ensures
        leads_to_leaf(entries, path, m[ck]),
        ck == joined(prefix, join_path(path)),
    decreases entries,
{
    if entries.len() == 0 {
        assert(!m.contains_key(ck));
        Seq::empty()
    } else {
        let rest = entries.drop_first();
        assert(decreases_to!(entries => entries[0]));
        match entries[0].key {
            KeyNode::Other => {
                assert(false);
                Seq::empty()
            },
            KeyNode::Str(k) => match entries[0].value {
                Node::Str(v) => {
                    let ins = Map::<Seq<char>, Seq<char>>::empty().insert(joined(prefix, k@), v@);
                    let mr = flat_of(rest, prefix)->Ok_0;
                    assert(m == ins.union_prefer_right(mr));
                    if mr.contains_key(ck) {
                        lemma_flat_value_path(rest, prefix, mr, ck)
                    } else {
                        let path = seq![k@];
                        assert(path.len() == 1 && path[0] == k@);
                        assert(entry_leads(entries[0], path, v@));
                        assert(join_path(path) == k@);
                        path
                    }
                },
                Node::Mapping(sub) => {
                    assert(decreases_to!(entries[0] => sub));
                    assert(decreases_to!(sub => sub@));
                    assert(decreases_to!(entries => sub@));
                    let sp = joined(prefix, k@);
                    let ms = flat_of(sub@, sp)->Ok_0;
                    let mr = flat_of(rest, prefix)->Ok_0;
                    assert(m == ms.union_prefer_right(mr));
                    if mr.contains_key(ck) {
                        lemma_flat_value_path(rest, prefix, mr, ck)
                    } else {
                        let sp_path = lemma_flat_value_path(sub@, sp, ms, ck);
                        lemma_leads_nonempty(sub@, sp_path, ms[ck]);
                        let path = seq![k@] + sp_path;
                        assert(path.drop_first() =~= sp_path);
                        assert(path[0] == k@);
                        assert(path.len() > 1);
                        assert(entry_leads(entries[0], path, ms[ck]));
                        lemma_join_path_cons(prefix, k@, sp_path);
                        path
                    }
                },
                Node::Other => {
                    assert(false);
                    Seq::empty()
                },
            },
        }
    }
}

/// Every path of keys that descends to a string leaf appears, dot-joined
/// under `prefix`, among the keys of a successful flatten.
proof fn lemma_flat_path_key(
    entries: Seq<Entry>,
    prefix: Seq<char>,
    m: Map<Seq<char>, Seq<char>>,
    path: Seq<Seq<char>>,
    v: Seq<char>,
)
    requires
        nonempty_keys(entries),
        flat_of(entries, prefix) == Ok::<Map<Seq<char>, Seq<char>>, Error>(m),
        leads_to_leaf(entries, path, v),
    ensures
        m.contains_key(joined(prefix, join_path(path))),
    decreases entries,
{
    let rest = entries.drop_first();
    assert(decreases_to!(entries => entries[0]));
    match entries[0].key {
        KeyNode::Other => {
            assert(false);
        },
        KeyNode::Str(k) => match entries[0].value {
            Node::Str(_) => {
                let mr = flat_of(rest, prefix)->Ok_0;
                if entry_leads(entries[0], path, v) {
                    assert(path.len() == 1);
                    assert(join_path(path) == path[0]);
                } else {
                    lemma_flat_path_key(rest, prefix, mr, path, v);
                }
            },
            Node::Mapping(sub) => {
                assert(decreases_to!(entries[0] => sub));
                assert(decreases_to!(sub => sub@));
                assert(decreases_to!(entries => sub@));
                let sp = joined(prefix, k@);
                let ms = flat_of(sub@, sp)->Ok_0;
                let mr = flat_of(rest, prefix)->Ok_0;
                if entry_leads(entries[0], path, v) {
                    assert(path.len() > 1);
                    assert(leads_to_leaf(sub@, path.drop_first(), v));
                    lemma_flat_path_key(sub@, sp, ms, path.drop_first(), v);
                    assert(seq![k@] + path.drop_first() =~= path);
                    lemma_join_path_cons(prefix, k@, path.drop_first());
                } else {
                    lemma_flat_path_key(rest, prefix, mr, path, v);
                }
            },
            Node::Other => {
                assert(false);
            },
        },
    }
}

/// Key composition: where flattening a tree whose string keys are all
/// non-empty succeeds with the mapping `m`, every key of `m` is the
/// dot-joined path of ancestor keys of some string leaf holding `m`'s value
/// for it, and conversely every path that descends to a string leaf appears
/// in `m`, under its dot-joined form, exactly once.
pub proof fn lemma_key_composition(entries: Seq<Entry>, m: Map<Seq<char>, Seq<char>>)
    requires
        nonempty_keys(entries),
        flat_of(entries, Seq::empty()) == Ok::<Map<Seq<char>, Seq<char>>, Error>(m),
    ensures
        forall|ck: Seq<char>| #[trigger] m.contains_key(ck) ==> exists|path: Seq<Seq<char>>|
            #[trigger] leads_to_leaf(entries, path, m[ck]) && ck == join_path(path),
        forall|path: Seq<Seq<char>>, v: Seq<char>| #[trigger] leads_to_leaf(entries, path, v)
            ==> m.contains_key(join_path(path)),
{
    assert forall|ck: Seq<char>| #[trigger] m.contains_key(ck) implies exists|
        path: Seq<Seq<char>>,
    |
        #[trigger] leads_to_leaf(entries, path, m[ck]) && ck == join_path(path) by {
        let path = lemma_flat_value_path(entries, Seq::empty(), m, ck);
        assert(leads_to_leaf(entries, path, m[ck]) && ck == join_path(path));
    }
    assert forall|path: Seq<Seq<char>>, v: Seq<char>| #[trigger] leads_to_leaf(entries, path, v)
        implies m.contains_key(join_path(path)) by {
        lemma_flat_path_key(entries, Seq::empty(), m, path, v);
        assert(joined(Seq::empty(), join_path(path)) == join_path(path));
    }
}

/// Idempotence of construction: building from identical text yields stores
/// with identical flat mappings.
pub proof fn lemma_construction_idempotent(text: Seq<char>, b1: Backend, b2: Backend)
    requires
        Some(b1@) == success_map(text),
        Some(b2@) == success_map(text),
    ensures
        b1@ == b2@,
{
}

} // verus!
