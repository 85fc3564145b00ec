//! The in-memory to-do store: a mapping from item name to [`Status`],
//! held as a list of entries whose keys are pairwise distinct.

use vstd::prelude::*;

use crate::json::append_member;
use crate::json::lemma_render_parses;
use crate::json::parse_json;
use crate::json::parse_members_at;
use crate::json::push_char;
use crate::json::render;
use crate::json::render_member;
use crate::json::render_members;
use crate::json::skip_ws_from;
use crate::map_of_pairs;
use crate::Status;

verus! {

/// One stored item: its name and its current status.
struct Entry {
    key: String,
    status: Status,
}

/// The key/status pairs held by a sequence of entries, as ghost values.
spec fn kv_seq(entries: Seq<Entry>) -> Seq<(Seq<char>, Status)> {
    entries.map_values(|e: Entry| (e.key@, e.status))
}

/// Whether some pair in `kvs` carries the key `k`.
spec fn pairs_have_key(kvs: Seq<(Seq<char>, Status)>, k: Seq<char>) -> bool {
    exists|i: int| 0 <= i < kvs.len() && kvs[i].0 == k
}

/// Whether the keys of `kvs` are pairwise distinct.
spec fn pairs_distinct(kvs: Seq<(Seq<char>, Status)>) -> bool {
    forall|i: int, j: int| 0 <= i < j < kvs.len() ==> kvs[i].0 != kvs[j].0
}

/// Appending a pair at the end of the list inserts its key last, so it wins.
proof fn lemma_pairs_push(
    m: Map<Seq<char>, Status>,
    kvs: Seq<(Seq<char>, Status)>,
    k: Seq<char>,
    st: Status,
)
    ensures
        map_of_pairs(m, kvs.push((k, st))) == map_of_pairs(m, kvs).insert(k, st),
    decreases kvs.len(),
{
    if kvs.len() == 0 {
        let e = Seq::<(Seq<char>, Status)>::empty();
        assert(kvs.push((k, st))[0] == (k, st));
        assert(kvs.push((k, st)).drop_first() =~= e);
        assert(map_of_pairs(m, kvs.push((k, st))) == map_of_pairs(m.insert(k, st), e));
        assert(map_of_pairs(m.insert(k, st), e) == m.insert(k, st));
        assert(map_of_pairs(m, kvs) == m);
    } else {
        let m2 = m.insert(kvs[0].0, kvs[0].1);
        assert(kvs.push((k, st))[0] == kvs[0]);
        assert(kvs.push((k, st)).drop_first() =~= kvs.drop_first().push((k, st)));
        assert(map_of_pairs(m, kvs.push((k, st))) == map_of_pairs(
            m2,
            kvs.drop_first().push((k, st)),
        ));
        assert(map_of_pairs(m, kvs) == map_of_pairs(m2, kvs.drop_first()));
        lemma_pairs_push(m2, kvs.drop_first(), k, st);
    }
}

/// When `k` occurs in none of the pairs, inserting it before or after the
/// fold makes no difference.
proof fn lemma_pairs_absent_insert(
    m: Map<Seq<char>, Status>,
    kvs: Seq<(Seq<char>, Status)>,
    k: Seq<char>,
    st: Status,
)
    requires
        !pairs_have_key(kvs, k),
    ensures
        map_of_pairs(m.insert(k, st), kvs) == map_of_pairs(m, kvs).insert(k, st),
    decreases kvs.len(),
{
    if kvs.len() > 0 {
        let k0 = kvs[0].0;
        let v0 = kvs[0].1;
        assert(kvs[0].0 != k);
        assert forall|i: int| 0 <= i < kvs.drop_first().len() implies kvs.drop_first()[i].0
            != k by {
            assert(kvs.drop_first()[i] == kvs[i + 1]);
        }
        assert(m.insert(k, st).insert(k0, v0) =~= m.insert(k0, v0).insert(k, st));
        lemma_pairs_absent_insert(m.insert(k0, v0), kvs.drop_first(), k, st);
    }
}

/// When `k` occurs in none of the pairs, the fold leaves `k` as `m` has it.
proof fn lemma_pairs_absent_lookup(
    m: Map<Seq<char>, Status>,
    kvs: Seq<(Seq<char>, Status)>,
    k: Seq<char>,
)
    requires
        !pairs_have_key(kvs, k),
    ensures
        map_of_pairs(m, kvs).contains_key(k) == m.contains_key(k),
        m.contains_key(k) ==> map_of_pairs(m, kvs)[k] == m[k],
    decreases kvs.len(),
{
    if kvs.len() > 0 {
        assert(kvs[0].0 != k);
        assert forall|i: int| 0 <= i < kvs.drop_first().len() implies kvs.drop_first()[i].0
            != k by {
            assert(kvs.drop_first()[i] == kvs[i + 1]);
        }
        lemma_pairs_absent_lookup(m.insert(kvs[0].0, kvs[0].1), kvs.drop_first(), k);
    }
}

/// With distinct keys, overwriting the pair that carries `k` in place acts
/// on the fold as one final insert of `k`.
proof fn lemma_pairs_update(
    m: Map<Seq<char>, Status>,
    kvs: Seq<(Seq<char>, Status)>,
    p: int,
    k: Seq<char>,
    st: Status,
)
    requires
        pairs_distinct(kvs),
        0 <= p < kvs.len(),
        kvs[p].0 == k,
    ensures
        map_of_pairs(m, kvs.update(p, (k, st))) == map_of_pairs(m, kvs).insert(k, st),
    decreases kvs.len(),
{
    let rest = kvs.drop_first();
    if p == 0 {
        assert(kvs.update(0, (k, st)).drop_first() =~= rest);
        assert forall|i: int| 0 <= i < rest.len() implies rest[i].0 != k by {
            assert(rest[i] == kvs[i + 1]);
        }
        lemma_pairs_absent_insert(m, rest, k, st);
        lemma_pairs_absent_insert(m, rest, k, kvs[0].1);
        assert(map_of_pairs(m, rest).insert(k, kvs[0].1).insert(k, st) =~= map_of_pairs(
            m,
            rest,
        ).insert(k, st));
    } else {
        assert(kvs.update(p, (k, st))[0] == kvs[0]);
        assert(kvs.update(p, (k, st)).drop_first() =~= rest.update(p - 1, (k, st)));
        assert forall|i: int, j: int| 0 <= i < j < rest.len() implies rest[i].0 != rest[j].0 by {
            assert(rest[i] == kvs[i + 1]);
            assert(rest[j] == kvs[j + 1]);
        }
        assert(rest[p - 1] == kvs[p]);
        lemma_pairs_update(m.insert(kvs[0].0, kvs[0].1), rest, p - 1, k, st);
    }
}

/// With distinct keys, the fold maps `k` to the status of the pair that
/// carries `k`.
proof fn lemma_pairs_lookup(
    m: Map<Seq<char>, Status>,
    kvs: Seq<(Seq<char>, Status)>,
    p: int,
    k: Seq<char>,
)
    requires
        pairs_distinct(kvs),
        0 <= p < kvs.len(),
        kvs[p].0 == k,
    ensures
        map_of_pairs(m, kvs).contains_key(k),
        map_of_pairs(m, kvs)[k] == kvs[p].1,
    decreases kvs.len(),
{
    let rest = kvs.drop_first();
    assert forall|i: int, j: int| 0 <= i < j < rest.len() implies rest[i].0 != rest[j].0 by {
        assert(rest[i] == kvs[i + 1]);
        assert(rest[j] == kvs[j + 1]);
    }
    if p == 0 {
        assert forall|i: int| 0 <= i < rest.len() implies rest[i].0 != k by {
            assert(rest[i] == kvs[i + 1]);
        }
        lemma_pairs_absent_lookup(m.insert(k, kvs[0].1), rest, k);
    } else {
        assert(rest[p - 1] == kvs[p]);
        lemma_pairs_lookup(m.insert(kvs[0].0, kvs[0].1), rest, p - 1, k);
    }
}

/// With distinct keys none of which `m` already has, the fold grows the
/// domain by exactly one key per pair.
proof fn lemma_pairs_dom_len(m: Map<Seq<char>, Status>, kvs: Seq<(Seq<char>, Status)>)
    requires
        m.dom().finite(),
        pairs_distinct(kvs),
        forall|i: int| 0 <= i < kvs.len() ==> !m.contains_key(#[trigger] kvs[i].0),
    ensures
        map_of_pairs(m, kvs).dom().finite(),
        map_of_pairs(m, kvs).dom().len() == m.dom().len() + kvs.len(),
    decreases kvs.len(),
{
    if kvs.len() > 0 {
        let k0 = kvs[0].0;
        let m2 = m.insert(k0, kvs[0].1);
        let rest = kvs.drop_first();
        assert(m2.dom() =~= m.dom().insert(k0));
        assert(!m.contains_key(k0));
        vstd::set::axiom_set_insert_len(m.dom(), k0);
        vstd::set::axiom_set_insert_finite(m.dom(), k0);
        assert forall|i: int, j: int| 0 <= i < j < rest.len() implies rest[i].0 != rest[j].0 by {
            assert(rest[i] == kvs[i + 1]);
            assert(rest[j] == kvs[j + 1]);
        }
        assert forall|i: int| 0 <= i < rest.len() implies !m2.contains_key(
            #[trigger] rest[i].0,
        ) by {
            assert(rest[i] == kvs[i + 1]);
        }
        lemma_pairs_dom_len(m2, rest);
    }
}

/// A failure the store itself can report.
#[derive(Clone, Copy, PartialEq, Eq, Structural, Debug)]
pub enum StoreError {
    /// The persisted text is neither blank nor a well-formed record of a
    /// mapping, so no store can be reconstructed from it.
    CorruptStore,
}

/// The to-do list: a mapping from item name to [`Status`].
///
/// Its ghost view (`self@`) is that mapping, as a `Map<Seq<char>, Status>`.
pub struct Todo {
    entries: Vec<Entry>,
}

impl View for Todo {
    type V = Map<Seq<char>, Status>;

    closed spec fn view(&self) -> Map<Seq<char>, Status> {
        map_of_pairs(Map::empty(), kv_seq(self.entries@))
    }
}

impl Todo {
    /// Well-formedness: no item name occurs in two entries.
    pub closed spec fn wf(&self) -> bool {
        pairs_distinct(kv_seq(self.entries@))
    }

    /// A store with no items at all.
    pub fn new() -> (r: Todo)
        ensures
            r.wf(),
            r@ == Map::<Seq<char>, Status>::empty(),
    {
        Todo { entries: Vec::new() }
    }

    /// The position of the entry that carries `key`, if there is one.
    fn position_of(&self, key: &String) -> (r: Option<usize>)
        ensures
            match r {
                Some(p) => p < self.entries@.len() && self.entries@[p as int].key@ == key@,
                None => forall|i: int|
                    0 <= i < self.entries@.len() ==> (#[trigger] self.entries@[i]).key@ != key@,
            },
    {
        let n = self.entries.len();
        let mut i: usize = 0;
        while i < n
            invariant
                n == self.entries@.len(),
                i <= n,
                forall|j: int| 0 <= j < i ==> (#[trigger] self.entries@[j]).key@ != key@,
            decreases n - i,
        {
            if self.entries[i].key == *key {
                return Some(i);
            }
            i = i + 1;
        }
        None
    }

    /// Sets `key` to `st`, overwriting whatever the store had for it.
    pub(crate) fn put(&mut self, key: String, st: Status)
        requires
            old(self).wf(),
        ensures
            final(self).wf(),
            final(self)@ == old(self)@.insert(key@, st),
    {
        let ghost kvs0 = kv_seq(self.entries@);
        match self.position_of(&key) {
            Some(p) => {
                self.entries[p] = Entry { key, status: st };
                proof {
                    assert(kv_seq(self.entries@) =~= kvs0.update(p as int, (key@, st)));
                    lemma_pairs_update(Map::empty(), kvs0, p as int, key@, st);
                    assert forall|i: int, j: int|
                        0 <= i < j < kv_seq(self.entries@).len() implies kv_seq(self.entries@)[i].0
                        != kv_seq(self.entries@)[j].0 by {
                        assert(kvs0[i].0 == if i == p { key@ } else { kvs0[i].0 });
                    }
                }
            },
            None => {
                let ghost key_view = key@;
                self.entries.push(Entry { key, status: st });
                proof {
                    assert(kv_seq(self.entries@) =~= kvs0.push((key_view, st)));
                    lemma_pairs_push(Map::empty(), kvs0, key_view, st);
                    assert forall|i: int, j: int|
                        0 <= i < j < kv_seq(self.entries@).len() implies kv_seq(self.entries@)[i].0
                        != kv_seq(self.entries@)[j].0 by {
                        if j < kvs0.len() {
                            assert(kvs0[i].0 != kvs0[j].0);
                        } else {
                            assert(kv_seq(self.entries@)[i].0 == kvs0[i].0);
                        }
                    }
                }
            },
        }
    }

    /// Records `key` as a pending item, silently overwriting any entry the
    /// store already had for it.
    pub fn insert(&mut self, key: String)
        requires
            old(self).wf(),
        ensures
            final(self).wf(),
            final(self)@ == old(self)@.insert(key@, Status::Pending),
    {
        self.put(key, Status::Pending);
    }

    /// Marks `key` as completed in place. Returns `Some(())` exactly when the
    /// store has an entry for `key`; on an absent key it returns `None` and
    /// changes nothing.
    pub fn complete(&mut self, key: &String) -> (r: Option<()>)
        requires
            old(self).wf(),
        ensures
            final(self).wf(),
            r is Some <==> old(self)@.contains_key(key@),
            old(self)@.contains_key(key@) ==> final(self)@ == old(self)@.insert(
                key@,
                Status::Completed,
            ),
            !old(self)@.contains_key(key@) ==> *final(self) == *old(self),
    {
        let ghost kvs0 = kv_seq(self.entries@);
        match self.position_of(key) {
            Some(p) => {
                proof {
                    lemma_pairs_lookup(Map::empty(), kvs0, p as int, key@);
                }
                let k = self.entries[p].key.clone();
                self.entries[p] = Entry { key: k, status: Status::Completed };
                proof {
                    assert(kv_seq(self.entries@) =~= kvs0.update(p as int, (key@, Status::Completed)));
                    lemma_pairs_update(Map::empty(), kvs0, p as int, key@, Status::Completed);
                    assert forall|i: int, j: int|
                        0 <= i < j < kv_seq(self.entries@).len() implies kv_seq(self.entries@)[i].0
                        != kv_seq(self.entries@)[j].0 by {
                        assert(kvs0[i].0 == if i == p { key@ } else { kvs0[i].0 });
                    }
                }
                Some(())
            },
            None => {
                proof {
                    assert(!pairs_have_key(kvs0, key@));
                    lemma_pairs_absent_lookup(Map::empty(), kvs0, key@);
                }
                None
            },
        }
    }

    /// The status the store has for `key`, if any.
    pub fn status_of(&self, key: &String) -> (r: Option<Status>)
        requires
            self.wf(),
        ensures
            match r {
                Some(st) => self@.contains_key(key@) && self@[key@] == st,
                None => !self@.contains_key(key@),
            },
    {
        let ghost kvs = kv_seq(self.entries@);
        match self.position_of(key) {
            Some(p) => {
                proof {
                    lemma_pairs_lookup(Map::empty(), kvs, p as int, key@);
                }
                Some(self.entries[p].status)
            },
            None => {
                proof {
                    assert(!pairs_have_key(kvs, key@));
                    lemma_pairs_absent_lookup(Map::empty(), kvs, key@);
                }
                None
            },
        }
    }

    /// How many items the store holds.
    pub fn len(&self) -> (r: usize)
        requires
            self.wf(),
        ensures
            self@.dom().finite(),
            r == self@.dom().len(),
    {
        proof {
            assert(Map::<Seq<char>, Status>::empty().dom() =~= Set::empty());
            lemma_pairs_dom_len(Map::empty(), kv_seq(self.entries@));
        }
        self.entries.len()
    }

    /// Reconstructs a store from persisted text. Blank text yields the
    /// empty store; text that is neither blank nor a well-formed record of
    /// a mapping is reported as corrupt, exactly when [`parse_json`]
    /// denotes nothing.
    pub fn from_json(s: &str) -> (r: Result<Todo, StoreError>)
        ensures
            match r {
                Ok(t) => t.wf() && parse_json(s@) == Some(t@),
                Err(e) => parse_json(s@) is None && e == StoreError::CorruptStore,
            },
    {
        let n = s.unicode_len();
        proof {
            assert(s@.skip(0) =~= s@);
        }
        let i1 = skip_ws_from(s, 0, n);
        if i1 >= n {
            return Ok(Todo::new());
        }
        let c = s.get_char(i1);
        proof {
            assert(s@.skip(i1 as int)[0] == s@[i1 as int]);
        }
        if c != '{' {
            return Err(StoreError::CorruptStore);
        }
        proof {
            assert(s@.skip(i1 as int).drop_first() =~= s@.skip(i1 as int + 1));
        }
        let i2 = skip_ws_from(s, i1 + 1, n);
        proof {
            if i2 < n {
                assert(s@.skip(i2 as int)[0] == s@[i2 as int]);
            }
        }
        if i2 < n && s.get_char(i2) == '}' {
            proof {
                assert(s@.skip(i2 as int).drop_first() =~= s@.skip(i2 as int + 1));
            }
            let i3 = skip_ws_from(s, i2 + 1, n);
            if i3 >= n {
                return Ok(Todo::new());
            } else {
                return Err(StoreError::CorruptStore);
            }
        }
        let mut t = Todo::new();
        match parse_members_at(s, i1 + 1, n, &mut t) {
            None => Err(StoreError::CorruptStore),
            Some(j) => {
                let j2 = skip_ws_from(s, j, n);
                if j2 >= n {
                    Ok(t)
                } else {
                    Err(StoreError::CorruptStore)
                }
            },
        }
    }

    /// Writes the store out as pretty-printed text, one member per line.
    /// The text is the rendered form of some list of records denoting this
    /// store's mapping, and nothing else; it parses back to exactly that
    /// mapping, so a save followed by a load always restores what was
    /// saved.
    pub fn to_json(&self) -> (r: String)
        ensures
            parse_json(r@) == Some(self@),
            exists|kvs: Seq<(Seq<char>, Status)>|
                r@ == render(kvs) && map_of_pairs(Map::<Seq<char>, Status>::empty(), kvs)
                    == self@,
    {
        let ghost kvs = kv_seq(self.entries@);
        let n = self.entries.len();
        if n == 0 {
            proof {
                reveal_strlit("{}");
            }
            let r = String::from_str("{}");
            proof {
                assert(kvs =~= Seq::<(Seq<char>, Status)>::empty());
                assert(r@ =~= render(kvs));
                lemma_render_parses(kvs);
                assert(map_of_pairs(Map::<Seq<char>, Status>::empty(), kvs) == self@);
                assert(r@ == render(kvs));
                assert(exists|kvs2: Seq<(Seq<char>, Status)>|
                    r@ == render(kvs2) && map_of_pairs(Map::<Seq<char>, Status>::empty(), kvs2)
                        == self@);
            }
            return r;
        }
        let mut out = String::new();
        push_char(&mut out, '{');
        push_char(&mut out, '\n');
        proof {
            assert(out@ =~= seq!['{', '\n']);
            assert(out@.skip(2) =~= Seq::<char>::empty());
            assert(kvs.skip(0) =~= kvs);
            assert(Seq::<char>::empty() + render_members(kvs) =~= render_members(kvs));
        }
        let mut i: usize = 0;
        while i < n
            invariant
                n == self.entries@.len(),
                0 < n <= usize::MAX,
                i <= n,
                kvs == kv_seq(self.entries@),
                kvs.len() == n,
                out@.len() >= 2,
                out@[0] == '{',
                out@[1] == '\n',
                render_members(kvs) == out@.skip(2) + render_members(kvs.skip(i as int)),
            decreases n - i,
        {
            let ghost out0 = out@;
            let ghost tail_i = kvs.skip(i as int);
            let e = &self.entries[i];
            push_char(&mut out, ' ');
            push_char(&mut out, ' ');
            proof {
                assert(out@ =~= out0 + seq![' ', ' ']);
            }
            let ghost out1 = out@;
            append_member(&mut out, &e.key, e.status);
            proof {
                assert(kvs[i as int] == (self.entries@[i as int].key@, self.entries@[i as int].status));
                assert(tail_i[0] == kvs[i as int]);
                assert(tail_i.drop_first() =~= kvs.skip(i as int + 1));
                assert(out@ == out1 + render_member(e.key@, e.status));
            }
            if i + 1 < n {
                let ghost out2 = out@;
                push_char(&mut out, ',');
                push_char(&mut out, '\n');
                proof {
                    assert(out@ =~= out2 + seq![',', '\n']);
                    assert(render_members(tail_i) == seq![' ', ' '] + render_member(
                        tail_i[0].0,
                        tail_i[0].1,
                    ) + seq![',', '\n'] + render_members(kvs.skip(i as int + 1)));
                    assert(out@.skip(2) =~= out0.skip(2) + (seq![' ', ' '] + render_member(
                        e.key@,
                        e.status,
                    ) + seq![',', '\n']));
                    assert(out0.skip(2) + (seq![' ', ' '] + render_member(e.key@, e.status) + seq![
                        ',',
                        '\n',
                    ]) + render_members(kvs.skip(i as int + 1)) =~= out0.skip(2) + render_members(
                        tail_i,
                    ));
                }
            } else {
                proof {
                    assert(tail_i.len() == 1);
                    assert(render_members(tail_i) == seq![' ', ' '] + render_member(
                        tail_i[0].0,
                        tail_i[0].1,
                    ));
                    assert(kvs.skip(i as int + 1).len() == 0);
                    assert(render_members(kvs.skip(i as int + 1)) == Seq::<char>::empty());
                    assert(out@.skip(2) =~= out0.skip(2) + (seq![' ', ' '] + render_member(
                        e.key@,
                        e.status,
                    )));
                    assert(out0.skip(2) + (seq![' ', ' '] + render_member(e.key@, e.status))
                        + Seq::<char>::empty() =~= out0.skip(2) + render_members(tail_i));
                }
            }
            i = i + 1;
        }
        proof {
            assert(kvs.skip(n as int).len() == 0);
            assert(render_members(kvs.skip(n as int)) == Seq::<char>::empty());
            assert(render_members(kvs) =~= out@.skip(2));
        }
        let ghost out3 = out@;
        push_char(&mut out, '\n');
        push_char(&mut out, '}');
        proof {
            assert(out@ =~= out3 + seq!['\n', '}']);
            assert(out3 =~= seq!['{', '\n'] + render_members(kvs));
            assert(out@ =~= seq!['{', '\n'] + render_members(kvs) + seq!['\n', '}']);
            assert(render(kvs) == seq!['{', '\n'] + render_members(kvs) + seq!['\n', '}']);
            lemma_render_parses(kvs);
            assert(map_of_pairs(Map::<Seq<char>, Status>::empty(), kvs) == self@);
            assert(out@ == render(kvs));
            assert(exists|kvs2: Seq<(Seq<char>, Status)>|
                out@ == render(kvs2) && map_of_pairs(Map::<Seq<char>, Status>::empty(), kvs2)
                    == self@);
        }
        out
    }
}

} // verus!
