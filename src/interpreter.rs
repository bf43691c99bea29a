//! A small interpreter state for *toy* programs under sequential
//! consistency or TSO: a shared memory, thread-local variables stored as
//! `thread.name`, and, under TSO, one FIFO write buffer per thread.
use crate::ast::{Expr, FenceType, Init, LogicExpr, LogicInt, Program, Statement, Thread};
use crate::builder::is_global_var;
use vstd::prelude::*;
use vstd::string::{StrSliceExecFns, StringExecFns};

verus! {

/// The memory model that the interpreter follows.
#[derive(Debug, Clone, Copy, PartialEq, Eq, Structural)]
pub enum MemoryModel {
    Sc,
    Tso,
}

/// The value of the first entry with key `k`, if any.
pub open spec fn lookup(m: Seq<(String, u32)>, k: Seq<char>) -> Option<u32>
    decreases m.len(),
{
    if m.len() == 0 {
        None
    } else if m[0].0@ == k {
        Some(m[0].1)
    } else {
        lookup(m.drop_first(), k)
    }
}

/// The keys of the entries, in order.
pub open spec fn keys(m: Seq<(String, u32)>) -> Seq<Seq<char>> {
    m.map_values(|e: (String, u32)| e.0@)
}

/// The keys after binding `k`: unchanged if `k` was bound, else `k` last.
pub open spec fn keys_after(m: Seq<(String, u32)>, k: Seq<char>) -> Seq<Seq<char>> {
    if keys(m).contains(k) {
        keys(m)
    } else {
        keys(m).push(k)
    }
}

/// No two entries share a key.
pub open spec fn unique_keys(m: Seq<(String, u32)>) -> bool {
    forall|i: int, j: int| 0 <= i < m.len() && 0 <= j < m.len() && i != j ==> m[i].0@ != m[j].0@
}

/// `m` with key `k` bound to `v`: in place if `k` is bound, else appended.
pub open spec fn set(m: Seq<(String, u32)>, k: String, v: u32) -> Seq<(String, u32)> {
    if exists|i: int| 0 <= i < m.len() && m[i].0@ == k@ {
        let i = choose|i: int| 0 <= i < m.len() && m[i].0@ == k@;
        m.update(i, (k, v))
    } else {
        m.push((k, v))
    }
}

/// The index of the entry with key `k`.
fn find(m: &Vec<(String, u32)>, k: &String) -> (r: Option<usize>)
    ensures
        r matches Some(i) ==> i < m@.len() && m@[i as int].0@ == k@,
        r is None ==> forall|i: int| 0 <= i < m@.len() ==> m@[i].0@ != k@,
{
    let mut i: usize = 0;
    while i < m.len()
        invariant
            i <= m@.len(),
            forall|j: int| 0 <= j < i ==> m@[j].0@ != k@,
        decreases m@.len() - i,
    {
        if m[i].0 == *k {
            return Some(i);
        }
        i += 1;
    }
    None
}

/// Bind `k` to `v`, keeping keys unique.
fn set_entry(m: &mut Vec<(String, u32)>, k: String, v: u32)
    requires
        unique_keys(old(m)@),
    ensures
        unique_keys(final(m)@),
        final(m)@ == set(old(m)@, k, v),
{
    match find(m, &k) {
        Some(i) => {
            proof {
                let j = choose|j: int| 0 <= j < m@.len() && m@[j].0@ == k@;
                assert(j == i);
            }
            m.set(i, (k, v));
        },
        None => {
            m.push((k, v));
        },
    }
}

/// A map that gives up its entries in the order in which their keys were
/// first inserted.
#[derive(Debug, Clone)]
pub struct FifoMap {
    pub entries: Vec<(String, u32)>,
}

impl FifoMap {
    pub open spec fn wf(&self) -> bool {
        unique_keys(self.entries@)
    }

    pub fn new() -> (r: FifoMap)
        ensures
            r.entries@.len() == 0,
            r.wf(),
    {
        FifoMap { entries: Vec::new() }
    }

    /// Bind `key` to `value`; a new key goes to the back of the queue.
    pub fn insert(&mut self, key: String, value: u32)
        requires
            old(self).wf(),
        ensures
            final(self).wf(),
            keys(final(self).entries@) == keys_after(old(self).entries@, key@),
            lookup(final(self).entries@, key@) == Some(value),
            forall|k: Seq<char>|
                k != key@ ==> #[trigger] lookup(final(self).entries@, k) == lookup(old(self).entries@, k),
    {
        proof {
            lemma_lookup_set(self.entries@, key, value);
        }
        set_entry(&mut self.entries, key, value);
    }

    /// The entry at the front of the queue, removed.
    pub fn remove(&mut self) -> (r: Option<(String, u32)>)
        requires
            old(self).wf(),
        ensures
            final(self).wf(),
            old(self).entries@.len() == 0 ==> r is None && final(self).entries@.len() == 0,
            old(self).entries@.len() > 0 ==> r == Some(old(self).entries@[0]) && final(self).entries@
                == old(self).entries@.drop_first(),
    {
        if self.entries.len() == 0 {
            None
        } else {
            let e = self.entries.remove(0);
            proof {
                assert forall|i: int, j: int|
                    0 <= i < self.entries@.len() && 0 <= j < self.entries@.len() && i != j implies self.entries@[i].0@
                    != self.entries@[j].0@ by {
                    assert(self.entries@[i] == old(self).entries@[i + 1]);
                    assert(self.entries@[j] == old(self).entries@[j + 1]);
                }
                assert(self.entries@ =~= old(self).entries@.drop_first());
            }
            Some(e)
        }
    }
}

/// The state of an interpretation.
#[derive(Debug)]
pub struct State {
    pub memory_model: MemoryModel,
    pub global_variables: Vec<String>,
    pub memory: Vec<(String, u32)>,
    pub write_buffers: Vec<(String, FifoMap)>,
}

/// The name under which a thread's local is stored: `thread.x`.
pub open spec fn local_key(thread: Seq<char>, x: Seq<char>) -> Seq<char> {
    thread + seq!['.'] + x
}

fn local_name(thread: &str, x: &str) -> (r: String)
    ensures
        r@ == local_key(thread@, x@),
{
    let mut k = thread.to_owned();
    k.append(".");
    proof {
        reveal_strlit(".");
    }
    k.append(x);
    k
}

/// The index of the first write buffer of `thread`, or the number of
/// buffers if it has none.
pub open spec fn first_buffer(b: Seq<(String, FifoMap)>, thread: Seq<char>) -> int
    decreases b.len(),
{
    if b.len() == 0 {
        0
    } else if b[0].0@ == thread {
        0
    } else {
        1 + first_buffer(b.drop_first(), thread)
    }
}

fn buffer_of(b: &Vec<(String, FifoMap)>, thread: &str) -> (r: Option<usize>)
    ensures
        r matches Some(i) ==> i == first_buffer(b@, thread@) && i < b@.len(),
        r is None ==> first_buffer(b@, thread@) == b@.len(),
{
    let t = thread.to_owned();
    let mut i: usize = 0;
    proof {
        assert(b@.skip(0) =~= b@);
    }
    while i < b.len()
        invariant
            i <= b@.len(),
            t@ == thread@,
            first_buffer(b@, thread@) == i + first_buffer(b@.skip(i as int), thread@),
        decreases b@.len() - i,
    {
        proof {
            assert(b@.skip(i as int).drop_first() =~= b@.skip(i + 1));
            assert(b@.skip(i as int)[0] == b@[i as int]);
        }
        if b[i].0 == t {
            return Some(i);
        }
        i += 1;
    }
    proof {
        assert(b@.skip(b@.len() as int) =~= Seq::<(String, FifoMap)>::empty());
    }
    None
}

/// Binding `k` to `v` changes the lookup of `k` and of nothing else.
pub proof fn lemma_lookup_set(m: Seq<(String, u32)>, k: String, v: u32)
    requires
        unique_keys(m),
    ensures
        lookup(set(m, k, v), k@) == Some(v),
        forall|k2: Seq<char>| k2 != k@ ==> #[trigger] lookup(set(m, k, v), k2) == lookup(m, k2),
        unique_keys(set(m, k, v)),
        keys(set(m, k, v)) == keys_after(m, k@),
{
    if exists|i: int| 0 <= i < m.len() && m[i].0@ == k@ {
        let i = choose|i: int| 0 <= i < m.len() && m[i].0@ == k@;
        lemma_lookup_update(m, i, (k, v));
        assert(keys(m)[i] == k@);
        assert(keys(m).contains(k@));
        assert(keys(m.update(i, (k, v))) =~= keys(m));
        assert forall|a: int, b: int|
            0 <= a < m.len() && 0 <= b < m.len() && a != b implies m.update(i, (k, v))[a].0@ != m.update(i, (k, v))[b].0@ by {
            if a == i || b == i {
            }
        }
    } else {
        lemma_lookup_push(m, (k, v));
        assert(!keys(m).contains(k@)) by {
            if keys(m).contains(k@) {
                let j = choose|j: int| 0 <= j < keys(m).len() && keys(m)[j] == k@;
                assert(m[j].0@ == k@);
            }
        }
        assert(keys(m.push((k, v))) =~= keys(m).push(k@));
        assert forall|a: int, b: int|
            0 <= a < m.len() + 1 && 0 <= b < m.len() + 1 && a != b implies m.push((k, v))[a].0@ != m.push((k, v))[b].0@ by {
        }
    }
}

proof fn lemma_lookup_update(m: Seq<(String, u32)>, i: int, e: (String, u32))
    requires
        unique_keys(m),
        0 <= i < m.len(),
        m[i].0@ == e.0@,
    ensures
        lookup(m.update(i, e), e.0@) == Some(e.1),
        forall|k2: Seq<char>| k2 != e.0@ ==> #[trigger] lookup(m.update(i, e), k2) == lookup(m, k2),
    decreases m.len(),
{
    let m2 = m.update(i, e);
    if i == 0 {
        assert(m2.drop_first() =~= m.drop_first());
        assert(m2[0] == e);
        assert forall|k2: Seq<char>| k2 != e.0@ implies #[trigger] lookup(m2, k2) == lookup(m, k2) by {
            assert(m[0].0@ == e.0@);
        }
    } else {
        let t = m.drop_first();
        assert(unique_keys(t)) by {
            assert forall|a: int, b: int| 0 <= a < t.len() && 0 <= b < t.len() && a != b implies t[a].0@ != t[b].0@ by {
                assert(t[a] == m[a + 1] && t[b] == m[b + 1]);
            }
        }
        lemma_lookup_update(t, i - 1, e);
        assert(m2.drop_first() =~= t.update(i - 1, e));
        assert(m[0].0@ != e.0@) by {
            assert(m[0].0@ != m[i].0@);
        }
        assert(m2[0] == m[0]);
        assert forall|k2: Seq<char>| k2 != e.0@ implies #[trigger] lookup(m2, k2) == lookup(m, k2) by {
            if m[0].0@ != k2 {
                assert(lookup(t.update(i - 1, e), k2) == lookup(t, k2));
            }
        }
    }
}

proof fn lemma_lookup_push(m: Seq<(String, u32)>, e: (String, u32))
    requires
        forall|i: int| 0 <= i < m.len() ==> m[i].0@ != e.0@,
    ensures
        lookup(m.push(e), e.0@) == Some(e.1),
        forall|k2: Seq<char>| k2 != e.0@ ==> #[trigger] lookup(m.push(e), k2) == lookup(m, k2),
    decreases m.len(),
{
    if m.len() > 0 {
        let t = m.drop_first();
        lemma_lookup_push(t, e);
        assert(m.push(e).drop_first() =~= t.push(e));
        assert(m[0].0@ != e.0@);
        assert(m.push(e)[0] == m[0]);
        assert forall|k2: Seq<char>| k2 != e.0@ implies #[trigger] lookup(m.push(e), k2) == lookup(m, k2) by {
            if m[0].0@ != k2 {
                assert(lookup(t.push(e), k2) == lookup(t, k2));
            }
        }
    } else {
        assert(m.push(e).drop_first() =~= Seq::<(String, u32)>::empty());
        assert(m.push(e)[0] == e);
        assert forall|k2: Seq<char>| k2 != e.0@ implies #[trigger] lookup(m.push(e), k2) == lookup(m, k2) by {
            assert(lookup(m.push(e).drop_first(), k2) == lookup(Seq::<(String, u32)>::empty(), k2));
        }
    }
}

/// With unique keys, an entry's key looks up that entry's value.
proof fn lemma_lookup_at(m: Seq<(String, u32)>, j: int)
    requires
        unique_keys(m),
        0 <= j < m.len(),
    ensures
        lookup(m, m[j].0@) == Some(m[j].1),
    decreases m.len(),
{
    if j > 0 {
        let t = m.drop_first();
        assert(unique_keys(t)) by {
            assert forall|a: int, b: int| 0 <= a < t.len() && 0 <= b < t.len() && a != b implies t[a].0@ != t[b].0@ by {
                assert(t[a] == m[a + 1] && t[b] == m[b + 1]);
            }
        }
        lemma_lookup_at(t, j - 1);
        assert(m[0].0@ != m[j].0@);
    }
}

impl State {
    pub open spec fn wf(&self) -> bool {
        &&& unique_keys(self.memory@)
        &&& forall|i: int| 0 <= i < self.write_buffers@.len() ==> (#[trigger] self.write_buffers@[i]).1.wf()
    }

    /// The write buffer of the named thread: the first one listed.
    pub open spec fn buffer_index(&self, thread: Seq<char>) -> Option<int> {
        if exists|i: int| 0 <= i < self.write_buffers@.len() && self.write_buffers@[i].0@ == thread {
            Some(
                choose|i: int|
                    0 <= i < self.write_buffers@.len() && self.write_buffers@[i].0@ == thread && forall|j: int|
                        0 <= j < i ==> self.write_buffers@[j].0@ != thread,
            )
        } else {
            None
        }
    }

    /// An empty state.
    pub fn new(memory_model: MemoryModel) -> (r: State)
        ensures
            r.wf(),
            r.memory_model == memory_model,
            r.global_variables@.len() == 0,
            r.memory@.len() == 0,
            r.write_buffers@.len() == 0,
    {
        State {
            memory_model,
            global_variables: Vec::new(),
            memory: Vec::new(),
            write_buffers: Vec::new(),
        }
    }

    /// Whether `x` was initialised as a global.
    pub fn is_global(&self, x: &String) -> (r: bool)
        ensures
            r == crate::builder::is_global(self.global_variables@, x@),
    {
        is_global_var(&self.global_variables, x)
    }

    /// Declare the global `x` with its initial value.
    pub fn write_init(&mut self, x: &String, value: u32)
        requires
            old(self).wf(),
        ensures
            final(self).wf(),
            final(self).global_variables@ == old(self).global_variables@.push(*x),
            final(self).memory@ == set(old(self).memory@, *x, value),
            final(self).write_buffers == old(self).write_buffers,
            final(self).memory_model == old(self).memory_model,
    {
        self.global_variables.push(x.clone());
        set_entry(&mut self.memory, x.clone(), value);
    }

    /// The value of `x` in memory; 0 if it was never written.
    pub fn read(&self, x: &str) -> (r: u32)
        ensures
            r == match lookup(self.memory@, x@) {
                Some(v) => v,
                None => 0,
            },
    {
        let key = x.to_owned();
        let mut i: usize = 0;
        proof {
            assert(self.memory@.skip(0) =~= self.memory@);
        }
        while i < self.memory.len()
            invariant
                i <= self.memory@.len(),
                key@ == x@,
                lookup(self.memory@, x@) == lookup(self.memory@.skip(i as int), x@),
            decreases self.memory@.len() - i,
        {
            proof {
                assert(self.memory@.skip(i as int).drop_first() =~= self.memory@.skip(i + 1));
                assert(self.memory@.skip(i as int)[0] == self.memory@[i as int]);
            }
            if self.memory[i].0 == key {
                return self.memory[i].1;
            }
            i += 1;
        }
        proof {
            assert(self.memory@.skip(self.memory@.len() as int) =~= Seq::<(String, u32)>::empty());
        }
        0
    }

    /// The value of thread `thread`'s local `x`; 0 if it was never written.
    pub fn read_local(&self, thread: &str, x: &str) -> (r: u32)
        ensures
            r == match lookup(self.memory@, local_key(thread@, x@)) {
                Some(v) => v,
                None => 0,
            },
    {
        let k = local_name(thread, x);
        self.read(k.as_str())
    }

    /// Store thread `thread`'s local `x`, directly in memory.
    pub fn write_local(&mut self, thread: &str, x: &str, value: u32)
        requires
            old(self).wf(),
        ensures
            final(self).wf(),
            lookup(final(self).memory@, local_key(thread@, x@)) == Some(value),
            forall|k: Seq<char>|
                k != local_key(thread@, x@) ==> #[trigger] lookup(final(self).memory@, k) == lookup(
                    old(self).memory@,
                    k,
                ),
            final(self).write_buffers == old(self).write_buffers,
            final(self).global_variables == old(self).global_variables,
            final(self).memory_model == old(self).memory_model,
    {
        let k = local_name(thread, x);
        proof {
            lemma_lookup_set(self.memory@, k, value);
        }
        set_entry(&mut self.memory, k, value);
    }

    /// Write `value` to the global `x` on behalf of `thread`: to memory
    /// under SC; under TSO, into the thread's write buffer if it has one.
    pub fn write(&mut self, x: &str, value: u32, thread: &str)
        requires
            old(self).wf(),
        ensures
            final(self).wf(),
            final(self).memory_model == old(self).memory_model,
            final(self).global_variables == old(self).global_variables,
            old(self).memory_model == MemoryModel::Sc ==> {
                &&& lookup(final(self).memory@, x@) == Some(value)
                &&& forall|k: Seq<char>|
                    k != x@ ==> #[trigger] lookup(final(self).memory@, k) == lookup(old(self).memory@, k)
                &&& final(self).write_buffers == old(self).write_buffers
            },
            old(self).memory_model == MemoryModel::Tso ==> {
                let b = first_buffer(old(self).write_buffers@, thread@);
                &&& final(self).memory == old(self).memory
                &&& final(self).write_buffers@.len() == old(self).write_buffers@.len()
                &&& forall|i: int|
                    0 <= i < old(self).write_buffers@.len() && i != b ==> #[trigger] final(self).write_buffers@[i]
                        == old(self).write_buffers@[i]
                &&& b < old(self).write_buffers@.len() ==> {
                    let o = old(self).write_buffers@[b].1.entries@;
                    let f = final(self).write_buffers@[b].1.entries@;
                    &&& final(self).write_buffers@[b].0 == old(self).write_buffers@[b].0
                    &&& keys(f) == keys_after(o, x@)
                    &&& lookup(f, x@) == Some(value)
                    &&& forall|k: Seq<char>| k != x@ ==> #[trigger] lookup(f, k) == lookup(o, k)
                }
            },
    {
        match self.memory_model {
            MemoryModel::Sc => {
                let k = x.to_owned();
                proof {
                    lemma_lookup_set(self.memory@, k, value);
                }
                set_entry(&mut self.memory, k, value);
            },
            MemoryModel::Tso => {
                if let Some(i) = buffer_of(&self.write_buffers, thread) {
                    let ghost old_b = self.write_buffers@;
                    let (name, mut buf) = self.write_buffers.remove(i);
                    proof {
                        assert(old_b[i as int].1.wf());
                    }
                    buf.insert(x.to_owned(), value);
                    self.write_buffers.insert(i, (name, buf));
                    proof {
                        assert forall|j: int| 0 <= j < self.write_buffers@.len() implies (#[trigger] self.write_buffers@[j]).1.wf() by {
                            if j != i {
                                if j < i {
                                    assert(self.write_buffers@[j] == old_b[j]);
                                } else {
                                    assert(self.write_buffers@[j] == old_b[j]);
                                }
                            }
                        }
                        assert forall|j: int| 0 <= j < old_b.len() && j != i implies #[trigger] self.write_buffers@[j] == old_b[j] by {}
                    }
                }
            },
        }
    }
}


impl State {
    /// Move the entry at the front of `thread`'s write buffer to memory.
    /// Returns whether there was one.
    pub fn flush_single_write_buffer(&mut self, thread: &str) -> (r: bool)
        requires
            old(self).wf(),
        ensures
            final(self).wf(),
            final(self).memory_model == old(self).memory_model,
            final(self).global_variables == old(self).global_variables,
            final(self).write_buffers@.len() == old(self).write_buffers@.len(),
            ({
                let b = first_buffer(old(self).write_buffers@, thread@);
                let o = old(self).write_buffers@[b].1.entries@;
                if b < old(self).write_buffers@.len() && o.len() > 0 {
                    &&& r
                    &&& final(self).write_buffers@[b].0 == old(self).write_buffers@[b].0
                    &&& final(self).write_buffers@[b].1.entries@ == o.drop_first()
                    &&& forall|i: int|
                        0 <= i < old(self).write_buffers@.len() && i != b ==> #[trigger] final(self).write_buffers@[i]
                            == old(self).write_buffers@[i]
                    &&& lookup(final(self).memory@, o[0].0@) == Some(o[0].1)
                    &&& forall|k: Seq<char>|
                        k != o[0].0@ ==> #[trigger] lookup(final(self).memory@, k) == lookup(old(self).memory@, k)
                } else {
                    !r && final(self).memory == old(self).memory && final(self).write_buffers == old(self).write_buffers
                }
            }),
    {
        match buffer_of(&self.write_buffers, thread) {
            None => false,
            Some(i) => {
                let ghost old_b = self.write_buffers@;
                if self.write_buffers[i].1.entries.len() == 0 {
                    return false;
                }
                let (name, mut buf) = self.write_buffers.remove(i);
                proof {
                    assert(old_b[i as int].1.wf());
                }
                let front = buf.remove();
                self.write_buffers.insert(i, (name, buf));
                let r = match front {
                    Some((k, v)) => {
                        proof {
                            lemma_lookup_set(self.memory@, k, v);
                        }
                        set_entry(&mut self.memory, k, v);
                        true
                    },
                    None => false,
                };
                proof {
                    assert forall|j: int| 0 <= j < self.write_buffers@.len() implies (#[trigger] self.write_buffers@[j]).1.wf() by {
                        if j != i {
                            assert(self.write_buffers@[j] == old_b[j]);
                        }
                    }
                    assert forall|j: int| 0 <= j < old_b.len() && j != i implies #[trigger] self.write_buffers@[j] == old_b[j] by {}
                }
                r
            },
        }
    }

    /// Move every entry of `thread`'s write buffer to memory, oldest first.
    /// Each buffered location then holds its buffered value.
    pub fn flush_write_buffer(&mut self, thread: &str)
        requires
            old(self).wf(),
        ensures
            final(self).wf(),
            final(self).memory_model == old(self).memory_model,
            final(self).global_variables == old(self).global_variables,
            ({
                let b = first_buffer(old(self).write_buffers@, thread@);
                if b < old(self).write_buffers@.len() {
                    let o = old(self).write_buffers@[b].1.entries@;
                    &&& final(self).write_buffers@[b].1.entries@.len() == 0
                    &&& forall|k: Seq<char>|
                        #[trigger] lookup(final(self).memory@, k) == if keys(o).contains(k) {
                            lookup(o, k)
                        } else {
                            lookup(old(self).memory@, k)
                        }
                } else {
                    final(self).memory == old(self).memory
                }
            }),
    {
        let ghost b = first_buffer(self.write_buffers@, thread@);
        let ghost o = self.write_buffers@[b].1.entries@;
        let ghost m0 = self.memory@;
        let ghost n0 = self.write_buffers@.len();
        let ghost names0 = self.write_buffers@.map_values(|e: (String, FifoMap)| e.0@);
        if buffer_of(&self.write_buffers, thread).is_none() {
            return;
        }
        proof {
            assert(o.skip(0) =~= o);
            assert(keys(o.take(0)) =~= Seq::<Seq<char>>::empty());
            assert(self.write_buffers@[b].1.wf());
        }
        let ghost mut j: int = 0;
        loop
            invariant
                self.wf(),
                b == first_buffer(old(self).write_buffers@, thread@),
                o == old(self).write_buffers@[b].1.entries@,
                m0 == old(self).memory@,
                0 <= b < n0,
                n0 == self.write_buffers@.len(),
                names0 == self.write_buffers@.map_values(|e: (String, FifoMap)| e.0@),
                b == first_buffer(self.write_buffers@, thread@),
                unique_keys(o),
                0 <= j <= o.len(),
                self.write_buffers@[b].1.entries@ == o.skip(j),
                forall|k: Seq<char>|
                    #[trigger] lookup(self.memory@, k) == if keys(o.take(j as int)).contains(k) {
                        lookup(o, k)
                    } else {
                        lookup(m0, k)
                    },
                self.memory_model == old(self).memory_model,
                self.global_variables == old(self).global_variables,
            ensures
                self.wf(),
                self.memory_model == old(self).memory_model,
                self.global_variables == old(self).global_variables,
                self.write_buffers@[b].1.entries@.len() == 0,
                forall|k: Seq<char>|
                    #[trigger] lookup(self.memory@, k) == if keys(o).contains(k) {
                        lookup(o, k)
                    } else {
                        lookup(m0, k)
                    },
            decreases o.len() - j,
        {
            let ghost mb = self.memory@;
            let ghost wb = self.write_buffers@;
            proof {
                assert(first_buffer(wb, thread@) == b);
            }
            let r = self.flush_single_write_buffer(thread);
            if !r {
                proof {
                    assert(o.skip(j as int).len() == 0);
                    assert(j == o.len());
                    assert(o.take(j as int) =~= o);
                    assert(self.memory@ == mb);
                    assert(self.write_buffers@ == wb);
                    assert(self.write_buffers@[b].1.entries@.len() == 0);
                    assert forall|k: Seq<char>|
                        #[trigger] lookup(self.memory@, k) == if keys(o).contains(k) {
                            lookup(o, k)
                        } else {
                            lookup(m0, k)
                        } by {
                        assert(keys(o.take(j as int)) == keys(o));
                    }
                }
                break;
            }
            proof {
                let e = o[j as int];
                assert(o.skip(j as int)[0] == e);
                assert(o.skip(j as int).drop_first() =~= o.skip(j + 1));
                assert(self.write_buffers@.map_values(|e: (String, FifoMap)| e.0@) =~= names0) by {
                    assert forall|i: int| 0 <= i < n0 implies self.write_buffers@[i].0@ == wb[i].0@ by {
                        if i != b {
                            assert(self.write_buffers@[i] == wb[i]);
                        }
                    }
                }
                lemma_first_buffer_names(wb, self.write_buffers@, thread@);
                lemma_lookup_at(o, j as int);
                assert(keys(o.take(j + 1)) =~= keys(o.take(j as int)).push(e.0@));
                assert(!keys(o.take(j as int)).contains(e.0@)) by {
                    if keys(o.take(j as int)).contains(e.0@) {
                        let a = choose|a: int| 0 <= a < keys(o.take(j as int)).len() && #[trigger] keys(o.take(j as int))[a] == e.0@;
                        assert(o[a].0@ == o[j as int].0@);
                    }
                }
                assert forall|k: Seq<char>|
                    #[trigger] lookup(self.memory@, k) == if keys(o.take(j + 1)).contains(k) {
                        lookup(o, k)
                    } else {
                        lookup(m0, k)
                    } by {
                    if k != e.0@ {
                        assert(lookup(self.memory@, k) == lookup(mb, k));
                        if keys(o.take(j + 1)).contains(k) {
                            let a = choose|a: int| 0 <= a < keys(o.take(j + 1)).len() && #[trigger] keys(o.take(j + 1))[a] == k;
                            assert(a < j);
                            assert(keys(o.take(j as int))[a] == k);
                        }
                        if keys(o.take(j as int)).contains(k) {
                            let a = choose|a: int| 0 <= a < keys(o.take(j as int)).len() && #[trigger] keys(o.take(j as int))[a] == k;
                            assert(keys(o.take(j + 1))[a] == k);
                        }
                    } else {
                        assert(keys(o.take(j + 1))[j as int] == k);
                    }
                }
                j = j + 1;
            }
        }
    }
}

/// Buffers whose names are the same have their first buffer of a thread at
/// the same place.
proof fn lemma_first_buffer_names(a: Seq<(String, FifoMap)>, c: Seq<(String, FifoMap)>, t: Seq<char>)
    requires
        a.len() == c.len(),
        forall|i: int| 0 <= i < a.len() ==> a[i].0@ == c[i].0@,
    ensures
        first_buffer(a, t) == first_buffer(c, t),
    decreases a.len(),
{
    if a.len() > 0 {
        lemma_first_buffer_names(a.drop_first(), c.drop_first(), t);
    }
}

} // verus!

verus! {

/// Relies on `rand::Rng::gen_range` with the thread-local generator: a
/// number in `0..n`; it panics on an empty range, which `requires` rules out.
#[verifier::external_body]
pub(crate) fn random_below(n: usize) -> (r: usize)
    requires
        n > 0,
    ensures
        r < n,
{
    rand::Rng::gen_range(&mut rand::thread_rng(), 0..n)
}

/// Relies on `rand::Rng::gen_ratio` with the thread-local generator: `true`
/// with probability `numerator / denominator`; it panics when the
/// denominator is 0 or below the numerator, which `requires` rules out.
#[verifier::external_body]
fn random_ratio(numerator: u32, denominator: u32) -> (r: bool)
    requires
        0 < denominator,
        numerator <= denominator,
{
    rand::Rng::gen_ratio(&mut rand::thread_rng(), numerator, denominator)
}

/// Declare the globals of the `init` block, in order.
pub fn init(statements: &Vec<Init>, state: &mut State)
    requires
        old(state).wf(),
    ensures
        final(state).wf(),
        final(state).global_variables@.len() == old(state).global_variables@.len() + statements@.len(),
{
    let mut i: usize = 0;
    while i < statements.len()
        invariant
            state.wf(),
            i <= statements@.len(),
            state.global_variables@.len() == old(state).global_variables@.len() + i,
        decreases statements@.len() - i,
    {
        match &statements[i] {
            Init::Assign(x, expr) => {
                let value = match expr {
                    Expr::Num(n) => *n,
                    Expr::Var(y) => state.read(y.as_str()),
                };
                state.write_init(x, value);
            },
        }
        i += 1;
    }
}

/// The position of the first `.` in `s`, if any.
fn find_dot(s: &str) -> (r: Option<usize>)
    ensures
        r matches Some(i) ==> i < s@.len() && s@[i as int] == '.',
{
    let n = s.unicode_len();
    let mut i: usize = 0;
    while i < n
        invariant
            n == s@.len(),
            i <= n,
        decreases n - i,
    {
        if s.get_char(i) == '.' {
            return Some(i);
        }
        i += 1;
    }
    None
}

/// The value of an expression for `thread`: `t.x` names a local of thread
/// `t`; another name is the thread's local if it has one, else a global.
pub fn evaluate_expression(expr: &Expr, state: &State, thread: &str) -> (r: u32)
    ensures
        expr matches Expr::Num(n) ==> r == n,
{
    match expr {
        Expr::Num(v) => *v,
        Expr::Var(var) => {
            let v = var.as_str();
            match find_dot(v) {
                Some(i) => {
                    let vn = v.unicode_len();
                    let t = v.substring_char(0, i);
                    let x = v.substring_char(i + 1, vn);
                    state.read_local(t, x)
                },
                None => {
                    let key = local_name(thread, v);
                    if find(&state.memory, &key).is_some() {
                        state.read_local(thread, v)
                    } else {
                        state.read(v)
                    }
                },
            }
        },
    }
}

/// A write-read fence empties the thread's write buffer; the others are
/// not modelled.
pub fn apply_fence(fence_type: &FenceType, state: &mut State, thread: &str)
    requires
        old(state).wf(),
    ensures
        final(state).wf(),
        final(state).memory_model == old(state).memory_model,
        *fence_type != FenceType::WR ==> *final(state) == *old(state),
{
    match fence_type {
        FenceType::WR => state.flush_write_buffer(thread),
        _ => {},
    }
}

/// The value of an integer of the final assertion.
pub fn assert_logic_int(expr: &LogicInt, state: &State) -> (r: u32)
    ensures
        expr matches LogicInt::Num(n) ==> r == n,
        expr matches LogicInt::LogicVar(t, x) ==> r == match lookup(state.memory@, local_key(t@, x@)) {
            Some(v) => v,
            None => 0,
        },
{
    match expr {
        LogicInt::Num(i) => *i,
        LogicInt::LogicVar(thread, variable) => state.read_local(thread.as_str(), variable.as_str()),
    }
}

/// Whether a formula of the final assertion holds.
pub fn assert_expr(expr: &LogicExpr, state: &State) -> (r: bool)
    decreases expr,
{
    match expr {
        LogicExpr::Neg(e) => !assert_expr(e, state),
        LogicExpr::And(e1, e2) => assert_expr(e1, state) && assert_expr(e2, state),
        LogicExpr::Eq(e1, e2) => assert_logic_int(e1, state) == assert_logic_int(e2, state),
        LogicExpr::Leq(e1, e2) => assert_logic_int(e1, state) <= assert_logic_int(e2, state),
    }
}

/// Whether every formula of the final assertion holds.
pub fn assertions_hold(asserts: &Vec<LogicExpr>, state: &State) -> (r: bool) {
    let mut i: usize = 0;
    while i < asserts.len()
        invariant
            i <= asserts@.len(),
        decreases asserts@.len() - i,
    {
        if !assert_expr(&asserts[i], state) {
            return false;
        }
        i += 1;
    }
    true
}

/// Run one statement of `thread`; under TSO the thread's oldest buffered
/// write then reaches memory when `flush` is set. Control flow is not
/// interpreted.
fn simulate_instruction(instruction: &Statement, thread: &str, state: &mut State, flush: bool)
    requires
        old(state).wf(),
    ensures
        final(state).wf(),
        final(state).memory_model == old(state).memory_model,
{
    match instruction {
        Statement::Modify(var, expr) => {
            let value = evaluate_expression(expr, state, thread);
            let key = local_name(thread, var.as_str());
            if find(&state.memory, &key).is_some() {
                state.write_local(thread, var.as_str(), value);
            } else {
                state.write(var.as_str(), value, thread);
            }
        },
        Statement::Assign(var, expr) => {
            let value = evaluate_expression(expr, state, thread);
            state.write_local(thread, var.as_str(), value);
        },
        Statement::Fence(fence_type) => {
            apply_fence(fence_type, state, thread);
        },
        _ => {},
    }
    if state.memory_model == MemoryModel::Tso && flush {
        let _ = state.flush_single_write_buffer(thread);
    }
}

/// The instructions that the threads have left.
pub open spec fn pending(threads: Seq<Thread>, ip: Seq<usize>, n: int) -> nat
    decreases n,
{
    if n <= 0 {
        0
    } else {
        pending(threads, ip, n - 1) + (threads[n - 1].instructions@.len() - ip[n - 1]) as nat
    }
}

proof fn lemma_pending_step(threads: Seq<Thread>, ip: Seq<usize>, i: int, n: int)
    requires
        0 <= i < n <= ip.len(),
        ip[i] < threads[i].instructions@.len(),
        ip[i] + 1 <= usize::MAX,
        forall|k: int| 0 <= k < n ==> ip[k] <= threads[k].instructions@.len(),
    ensures
        pending(threads, ip.update(i, (ip[i] + 1) as usize), n) + 1 == pending(threads, ip, n),
    decreases n,
{
    if n - 1 > i {
        lemma_pending_step(threads, ip, i, n - 1);
    } else {
        assert(forall|k: int| 0 <= k < n - 1 ==> ip.update(i, (ip[i] + 1) as usize)[k] == ip[k]);
        lemma_pending_same(threads, ip, ip.update(i, (ip[i] + 1) as usize), n - 1);
    }
}

proof fn lemma_pending_same(threads: Seq<Thread>, a: Seq<usize>, b: Seq<usize>, n: int)
    requires
        forall|k: int| 0 <= k < n ==> a[k] == b[k],
    ensures
        pending(threads, a, n) == pending(threads, b, n),
    decreases n,
{
    if n > 0 {
        lemma_pending_same(threads, a, b, n - 1);
    }
}

/// Run the threads to completion, picking at random which thread runs its
/// next statement; under TSO, after each statement the running thread's
/// oldest buffered write reaches memory with probability 1/4.
pub fn run_threads(threads: &Vec<Thread>, state: &mut State)
    requires
        old(state).wf(),
    ensures
        final(state).wf(),
{
    let n = threads.len();
    let mut i: usize = 0;
    while i < n
        invariant
            state.wf(),
            i <= n,
            n == threads@.len(),
        decreases n - i,
    {
        if buffer_of(&state.write_buffers, threads[i].name.as_str()).is_none() {
            state.write_buffers.push((threads[i].name.clone(), FifoMap::new()));
            proof {
                assert forall|j: int| 0 <= j < state.write_buffers@.len() implies (#[trigger] state.write_buffers@[j]).1.wf() by {
                    if j < state.write_buffers@.len() - 1 {
                        assert(state.write_buffers@[j] == state.write_buffers@.drop_last()[j]);
                    }
                }
            }
        }
        i += 1;
    }
    let mut ip: Vec<usize> = Vec::new();
    let mut active: Vec<usize> = Vec::new();
    let mut t: usize = 0;
    while t < n
        invariant
            t <= n,
            n == threads@.len(),
            ip@.len() == t,
            forall|k: int| 0 <= k < t ==> ip@[k] == 0,
            forall|k: int| 0 <= k < active@.len() ==> #[trigger] active@[k] < t && ip@[active@[k] as int] < threads@[active@[k] as int].instructions@.len(),
            active@.no_duplicates(),
        decreases n - t,
    {
        ip.push(0);
        if threads[t].instructions.len() > 0 {
            active.push(t);
            proof {
                assert forall|a: int, b: int| 0 <= a < active@.len() && 0 <= b < active@.len() && a != b implies active@[a] != active@[b] by {
                    if a < active@.len() - 1 && b < active@.len() - 1 {
                        assert(active@[a] == active@.drop_last()[a] && active@[b] == active@.drop_last()[b]);
                    } else if a < active@.len() - 1 {
                        assert(active@[a] == active@.drop_last()[a]);
                    } else {
                        assert(active@[b] == active@.drop_last()[b]);
                    }
                }
            }
        }
        t += 1;
    }
    while active.len() > 0
        invariant
            state.wf(),
            n == threads@.len(),
            ip@.len() == n,
            forall|k: int| 0 <= k < n ==> ip@[k] <= threads@[k].instructions@.len(),
            forall|k: int| 0 <= k < active@.len() ==> #[trigger] active@[k] < n && ip@[active@[k] as int] < threads@[active@[k] as int].instructions@.len(),
            active@.no_duplicates(),
        decreases pending(threads@, ip@, n as int),
    {
        let idx = random_below(active.len());
        let ti = active[idx];
        let thread = &threads[ti];
        let flush = random_ratio(1, 4);
        let len_t = thread.instructions.len();
        simulate_instruction(&thread.instructions[ip[ti]], thread.name.as_str(), state, flush);
        proof {
            lemma_pending_step(threads@, ip@, ti as int, n as int);
        }
        let ghost a0 = active@;
        let ghost ip0 = ip@;
        let next = ip[ti] + 1;
        ip.set(ti, next);
        if next >= len_t {
            active.swap_remove(idx);
            proof {
                let a1 = a0.update(idx as int, a0.last());
                assert forall|k: int| 0 <= k < active@.len() implies #[trigger] active@[k] < n && ip@[active@[k] as int] < threads@[active@[k] as int].instructions@.len() by {
                    assert(active@[k] == a1[k]);
                    if k == idx {
                        assert(a1[k] == a0[a0.len() - 1]);
                        assert(a0.len() - 1 != idx);
                        assert(a0[a0.len() - 1] != a0[idx as int]);
                    } else {
                        assert(a1[k] == a0[k]);
                        assert(a0[k] != a0[idx as int]);
                    }
                }
                assert forall|x: int, y: int| 0 <= x < active@.len() && 0 <= y < active@.len() && x != y implies active@[x] != active@[y] by {
                    let xx = if x == idx { a0.len() - 1 } else { x };
                    let yy = if y == idx { a0.len() - 1 } else { y };
                    assert(active@[x] == a0[xx]);
                    assert(active@[y] == a0[yy]);
                }
            }
        } else {
            proof {
                assert forall|k: int| 0 <= k < active@.len() implies #[trigger] active@[k] < n && ip@[active@[k] as int] < threads@[active@[k] as int].instructions@.len() by {
                    if active@[k] != ti {
                        assert(ip@[active@[k] as int] == ip0[active@[k] as int]);
                    }
                }
            }
        }
    }
}


/// Check the program's scopes, then run it once: initialise the globals,
/// interleave the threads at random, and evaluate the final assertion.
/// Returns the scope error, or whether the assertion held.
pub fn execute(program: &Program, memory_model: MemoryModel) -> (r: Result<bool, crate::check::Error>)
    ensures
        r is Ok <==> crate::check::program_ok(*program),
{
    match crate::check::check(program) {
        Err(e) => Err(e),
        Ok(()) => {
            let mut state = State::new(memory_model);
            init(&program.init, &mut state);
            run_threads(&program.threads, &mut state);
            Ok(assertions_hold(&program.assert, &state))
        },
    }
}

} // verus!
