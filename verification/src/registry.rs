//! The registry of segments that every backend shares.
//!
//! The first backend to need a segment copies it once into shared memory; the
//! others map it. The registry maps (index relfile, segment's first block,
//! segment id) to a handle of that memory. The id matters on hot standbys:
//! replay frees and reuses pages without telling the registry, so a new
//! segment can start at an old one's block; ids are never reused within an
//! index. Entries are pinned, so a segment outlives the backend that loaded
//! it, and unpinned when the segment's pages are freed
//! ([`Registry::forget`]) or, least recently used first, when the cache is
//! full.
//!
//! Handles are only carried here: creating, mapping and unpinning the memory
//! is left to the caller, who performs each [`LoadAction`] and reports how it
//! went.

use vstd::prelude::*;

verus! {

/// Entries in the registry.
pub const MAX_ENTRIES: usize = 1024;

/// An index relation's file.
#[derive(Copy, Clone, Debug, PartialEq, Eq, Structural)]
pub struct Locator {
    pub spc: u32,
    pub db: u32,
    pub rel: u32,
}

/// One shared segment.
#[derive(Copy, Clone, Debug, PartialEq, Eq, Structural)]
pub struct Entry {
    pub used: bool,
    pub loc: Locator,
    pub head: u32,
    pub id: u32,
    pub len: u64,
    pub handle: u32,
    pub last_use: u64,
}

/// The segment that is looked for.
#[derive(Copy, Clone, Debug, PartialEq, Eq, Structural)]
pub struct Wanted {
    pub loc: Locator,
    pub head: u32,
    pub id: u32,
    pub len: u64,
}

/// What a load does next.
#[derive(Debug)]
pub enum LoadAction {
    /// Map the shared copy with this handle and check that it is the wanted
    /// segment's; then [`Registry::attached`].
    Attach(u32),
    /// Unpin these, create shared memory for the segment and copy it there;
    /// then [`Registry::created`].
    Create(Vec<u32>),
    /// Unpin these and read the segment privately.
    Private(Vec<u32>),
    /// The segment is mapped.
    Done,
}

/// What publishing a segment does next.
#[derive(Debug)]
pub enum PublishAction {
    /// Unpin these, create shared memory and copy the segment there; then
    /// [`Registry::created`].
    Create(Vec<u32>),
    /// Unpin these; there is no room.
    Skip(Vec<u32>),
    /// It is there already.
    Present,
}

pub struct Registry {
    pub clock: u64,
    pub bytes: u64,
    pub entries: Vec<Entry>,
}

/// An entry for the chain starting at `head` (whichever segment it holds).
pub open spec fn is_same(e: Entry, loc: Locator, head: u32) -> bool {
    e.used && e.loc == loc && e.head == head
}

/// The first entry for a chain among the first `n`.
pub open spec fn find_in(es: Seq<Entry>, loc: Locator, head: u32, n: int) -> Option<int>
    decreases n,
{
    if n <= 0 {
        None
    } else {
        match find_in(es, loc, head, n - 1) {
            Some(i) => Some(i),
            None => if is_same(es[n - 1], loc, head) {
                Some(n - 1)
            } else {
                None
            },
        }
    }
}

/// The least recently used entry among the first `n`, the first of several.
pub open spec fn oldest_in(es: Seq<Entry>, n: int) -> Option<int>
    decreases n,
{
    if n <= 0 {
        None
    } else {
        match oldest_in(es, n - 1) {
            Some(i) => if es[n - 1].used && es[n - 1].last_use < es[i].last_use {
                Some(n - 1)
            } else {
                Some(i)
            },
            None => if es[n - 1].used {
                Some(n - 1)
            } else {
                None
            },
        }
    }
}

/// The first unused entry among the first `n`.
pub open spec fn free_in(es: Seq<Entry>, n: int) -> Option<int>
    decreases n,
{
    if n <= 0 {
        None
    } else {
        match free_in(es, n - 1) {
            Some(i) => Some(i),
            None => if !es[n - 1].used {
                Some(n - 1)
            } else {
                None
            },
        }
    }
}

/// Bytes of the used entries among the first `n`.
pub open spec fn total_in(es: Seq<Entry>, n: int) -> int
    decreases n,
{
    if n <= 0 {
        0
    } else {
        total_in(es, n - 1) + (if es[n - 1].used { es[n - 1].len as int } else { 0 })
    }
}

/// Used entries among the first `n`.
pub open spec fn used_in(es: Seq<Entry>, n: int) -> nat
    decreases n,
{
    if n <= 0 {
        0
    } else {
        used_in(es, n - 1) + (if es[n - 1].used { 1nat } else { 0nat })
    }
}

/// The entries without entry `i`.
pub open spec fn without(es: Seq<Entry>, i: int) -> Seq<Entry> {
    es.update(i, Entry { used: false, ..es[i] })
}

/// Entries, their bytes, and the handles of those dropped.
pub type Room = (Seq<Entry>, int, Seq<u32>);

/// Making room for `len` of at most `cap` bytes, least recently used first.
pub open spec fn make_room(es: Seq<Entry>, bytes: int, len: int, cap: int) -> Room
    decreases used_in(es, es.len() as int),
{
    if bytes + len <= cap {
        (es, bytes, Seq::empty())
    } else {
        match oldest_in(es, es.len() as int) {
            None => (es, bytes, Seq::empty()),
            Some(i) => {
                proof {
                    lemma_oldest(es, es.len() as int);
                    lemma_without(es, i, es.len() as int);
                }
                let r = make_room(without(es, i), bytes - es[i].len, len, cap);
                (r.0, r.1, seq![es[i].handle] + r.2)
            },
        }
    }
}

pub proof fn lemma_oldest(es: Seq<Entry>, n: int)
    requires
        0 <= n <= es.len(),
    ensures
        match oldest_in(es, n) {
            Some(i) => 0 <= i < n && es[i].used && forall|k: int| 0 <= k < n && (#[trigger] es[k]).used ==> es[i].last_use <= es[k].last_use,
            None => forall|k: int| 0 <= k < n ==> !(#[trigger] es[k]).used,
        },
    decreases n,
{
    if n > 0 {
        lemma_oldest(es, n - 1);
    }
}

pub proof fn lemma_without(es: Seq<Entry>, i: int, n: int)
    requires
        0 <= i < es.len(),
        es[i].used,
        0 <= n <= es.len(),
    ensures
        total_in(without(es, i), n) == total_in(es, n) - (if i < n { es[i].len as int } else { 0 }),
        used_in(without(es, i), n) + (if i < n { 1nat } else { 0nat }) == used_in(es, n),
    decreases n,
{
    if n > 0 {
        lemma_without(es, i, n - 1);
    }
}

proof fn lemma_find(es: Seq<Entry>, loc: Locator, head: u32, n: int)
    requires
        0 <= n <= es.len(),
    ensures
        match find_in(es, loc, head, n) {
            Some(i) => 0 <= i < n && is_same(es[i], loc, head),
            None => forall|k: int| 0 <= k < n ==> !is_same(#[trigger] es[k], loc, head),
        },
    decreases n,
{
    if n > 0 {
        lemma_find(es, loc, head, n - 1);
    }
}

proof fn lemma_free(es: Seq<Entry>, n: int)
    requires
        0 <= n <= es.len(),
    ensures
        match free_in(es, n) {
            Some(i) => 0 <= i < n && !es[i].used,
            None => forall|k: int| 0 <= k < n ==> (#[trigger] es[k]).used,
        },
    decreases n,
{
    if n > 0 {
        lemma_free(es, n - 1);
    }
}

proof fn lemma_total_bound(es: Seq<Entry>, i: int, n: int)
    requires
        0 <= n <= es.len(),
    ensures
        0 <= total_in(es, n),
        0 <= i < n && es[i].used ==> es[i].len <= total_in(es, n),
    decreases n,
{
    if n > 0 {
        lemma_total_bound(es, i, n - 1);
    }
}

/// No entry used, no bytes.
proof fn lemma_none_used(es: Seq<Entry>, n: int)
    requires
        0 <= n <= es.len(),
        forall|k: int| 0 <= k < n ==> !(#[trigger] es[k]).used,
    ensures
        total_in(es, n) == 0,
    decreases n,
{
    if n > 0 {
        lemma_none_used(es, n - 1);
    }
}

proof fn lemma_with(es: Seq<Entry>, i: int, e: Entry, n: int)
    requires
        0 <= i < es.len(),
        !es[i].used,
        e.used,
        0 <= n <= es.len(),
    ensures
        total_in(es.update(i, e), n) == total_in(es, n) + (if i < n { e.len as int } else { 0 }),
    decreases n,
{
    if n > 0 {
        lemma_with(es, i, e, n - 1);
    }
}

proof fn lemma_touch(es: Seq<Entry>, i: int, e: Entry, n: int)
    requires
        0 <= i < es.len(),
        e.used == es[i].used,
        e.len == es[i].len,
        0 <= n <= es.len(),
    ensures
        total_in(es.update(i, e), n) == total_in(es, n),
    decreases n,
{
    if n > 0 {
        lemma_touch(es, i, e, n - 1);
    }
}

/// At most one used entry for every chain.
pub open spec fn one_each(es: Seq<Entry>) -> bool {
    forall|i: int, j: int| 0 <= i < j < es.len() && (#[trigger] es[i]).used && (#[trigger] es[j]).used ==> es[i].loc != es[j].loc || es[i].head
        != es[j].head
}

/// Making room keeps the books, and makes it where it can.
proof fn lemma_room(es: Seq<Entry>, bytes: int, len: int, cap: int)
    requires
        bytes == total_in(es, es.len() as int),
        one_each(es),
        0 <= len,
    ensures
        ({
            let r = make_room(es, bytes, len, cap);
            &&& r.0.len() == es.len()
            &&& r.1 == total_in(r.0, r.0.len() as int)
            &&& 0 <= r.1 <= bytes
            &&& one_each(r.0)
            &&& len <= cap ==> r.1 + len <= cap
            &&& forall|k: int| 0 <= k < es.len() && (#[trigger] r.0[k]).used ==> r.0[k] == es[k]
        }),
    decreases used_in(es, es.len() as int),
{
    let n = es.len() as int;
    lemma_total_bound(es, 0, n);
    lemma_oldest(es, n);
    if bytes + len > cap {
        match oldest_in(es, n) {
            None => {
                lemma_none_used(es, n);
            },
            Some(i) => {
                lemma_without(es, i, n);
                let rest = without(es, i);
                assert(one_each(rest)) by {
                    assert forall|a: int, b: int| 0 <= a < b < rest.len() && (#[trigger] rest[a]).used && (#[trigger] rest[b]).used implies rest[a].loc
                        != rest[b].loc || rest[a].head != rest[b].head by {
                        assert(es[a].used && es[b].used);
                    }
                }
                lemma_room(rest, bytes - es[i].len, len, cap);
                let r = make_room(rest, bytes - es[i].len, len, cap);
                assert forall|k: int| 0 <= k < es.len() && (#[trigger] r.0[k]).used implies r.0[k] == es[k] by {
                    assert(r.0[k] == rest[k]);
                }
            },
        }
    }
}

impl Registry {
    /// The books are right: one used entry at most for every chain, and as
    /// many bytes as the used entries hold.
    pub open spec fn wf(&self) -> bool {
        &&& self.entries@.len() == MAX_ENTRIES
        &&& self.bytes == total_in(self.entries@, MAX_ENTRIES as int)
        &&& one_each(self.entries@)
    }

    pub fn new() -> (r: Self)
        ensures
            r.wf(),
            r.clock == 0,
            r.bytes == 0,
            forall|i: int| 0 <= i < MAX_ENTRIES ==> !(#[trigger] r.entries@[i]).used,
    {
        let none: Entry = Entry { used: false, loc: Locator { spc: 0, db: 0, rel: 0 }, head: 0, id: 0, len: 0, handle: 0, last_use: 0 };
        let mut entries: Vec<Entry> = Vec::new();
        let mut i: usize = 0;
        while i < MAX_ENTRIES
            invariant
                i <= MAX_ENTRIES,
                entries@.len() == i,
                !none.used,
                forall|k: int| 0 <= k < i ==> !(#[trigger] entries@[k]).used,
            decreases MAX_ENTRIES - i,
        {
            entries.push(none);
            i = i + 1;
        }
        proof {
            lemma_none_used(entries@, MAX_ENTRIES as int);
        }
        Registry { clock: 0, bytes: 0, entries }
    }

    /// The first entry for a chain.
    fn find(&self, loc: Locator, head: u32) -> (r: Option<usize>)
        ensures
            match r {
                Some(i) => find_in(self.entries@, loc, head, self.entries@.len() as int) == Some(i as int) && i < self.entries@.len(),
                None => find_in(self.entries@, loc, head, self.entries@.len() as int) is None,
            },
    {
        let mut found: Option<usize> = None;
        let mut i: usize = 0;
        while i < self.entries.len()
            invariant
                i <= self.entries@.len(),
                match found {
                    Some(k) => find_in(self.entries@, loc, head, i as int) == Some(k as int) && k < i,
                    None => find_in(self.entries@, loc, head, i as int) is None,
                },
            decreases self.entries@.len() - i,
        {
            let e: Entry = self.entries[i];
            if found.is_none() && e.used && e.loc == loc && e.head == head {
                found = Some(i);
            }
            i = i + 1;
        }
        found
    }

    /// Drop entry `i`; returns its handle.
    fn drop_entry(&mut self, i: usize) -> (r: u32)
        requires
            old(self).wf(),
            i < MAX_ENTRIES,
            old(self).entries@[i as int].used,
        ensures
            final(self).wf(),
            final(self).entries@ == without(old(self).entries@, i as int),
            final(self).bytes == old(self).bytes - old(self).entries@[i as int].len,
            final(self).clock == old(self).clock,
            r == old(self).entries@[i as int].handle,
    {
        let ghost es = self.entries@;
        let mut e: Entry = self.entries[i];
        proof {
            lemma_total_bound(es, i as int, MAX_ENTRIES as int);
            lemma_without(es, i as int, MAX_ENTRIES as int);
        }
        self.bytes = self.bytes - e.len;
        e.used = false;
        self.entries.set(i, e);
        proof {
            assert(self.entries@ =~= without(es, i as int));
            assert forall|a: int, b: int| 0 <= a < b < self.entries@.len() && (#[trigger] self.entries@[a]).used && (#[trigger] self.entries@[b]).used
                implies self.entries@[a].loc != self.entries@[b].loc || self.entries@[a].head != self.entries@[b].head by {
                assert(es[a].used && es[b].used);
            }
        }
        e.handle
    }

    /// Make room for `len` bytes; returns the handles dropped.
    fn evict(&mut self, len: u64, cap: u64) -> (r: Vec<u32>)
        requires
            old(self).wf(),
        ensures
            final(self).wf(),
            (final(self).entries@, final(self).bytes as int, r@) == make_room(old(self).entries@, old(self).bytes as int, len as int, cap as int),
            final(self).clock == old(self).clock,
            len <= cap ==> final(self).bytes + len <= cap,
            forall|k: int| 0 <= k < MAX_ENTRIES && (#[trigger] final(self).entries@[k]).used ==> final(self).entries@[k] == old(self).entries@[k],
    {
        proof {
            lemma_room(self.entries@, self.bytes as int, len as int, cap as int);
        }
        let ghost all = make_room(self.entries@, self.bytes as int, len as int, cap as int);
        let ghost clock = self.clock;
        let mut dropped: Vec<u32> = Vec::new();
        proof {
            assert(dropped@ + all.2 =~= all.2);
        }
        loop
            invariant_except_break
                ({
                    let r = make_room(self.entries@, self.bytes as int, len as int, cap as int);
                    r.0 == all.0 && r.1 == all.1 && dropped@ + r.2 == all.2
                }),
            invariant
                self.wf(),
                self.clock == clock,
            ensures
                self.wf(),
                self.clock == clock,
                self.entries@ == all.0,
                self.bytes == all.1,
                dropped@ == all.2,
                len <= cap ==> self.bytes + len <= cap,
            decreases used_in(self.entries@, self.entries@.len() as int),
        {
            proof {
                assert(dropped@ + Seq::<u32>::empty() =~= dropped@);
                lemma_oldest(self.entries@, self.entries@.len() as int);
                lemma_room(self.entries@, self.bytes as int, len as int, cap as int);
            }
            if self.bytes <= cap && len <= cap - self.bytes {
                break;
            }
            let mut victim: Option<usize> = None;
            let mut i: usize = 0;
            while i < self.entries.len()
                invariant
                    i <= self.entries@.len(),
                    match victim {
                        Some(k) => oldest_in(self.entries@, i as int) == Some(k as int) && k < i,
                        None => oldest_in(self.entries@, i as int) is None,
                    },
                decreases self.entries@.len() - i,
            {
                let e: Entry = self.entries[i];
                if e.used {
                    let better: bool = match victim {
                        Some(k) => e.last_use < self.entries[k].last_use,
                        None => true,
                    };
                    if better {
                        victim = Some(i);
                    }
                }
                i = i + 1;
            }
            match victim {
                None => {
                    break;
                },
                Some(k) => {
                    let ghost es = self.entries@;
                    let ghost was = dropped@;
                    let ghost r = make_room(without(es, k as int), self.bytes - es[k as int].len, len as int, cap as int);
                    proof {
                        lemma_without(es, k as int, es.len() as int);
                    }
                    let h: u32 = self.drop_entry(k);
                    dropped.push(h);
                    proof {
                        assert(was + (seq![h] + r.2) =~= dropped@ + r.2);
                    }
                },
            }
        }
        dropped
    }

    /// The first unused slot.
    fn free_slot(&self) -> (r: Option<usize>)
        ensures
            match r {
                Some(i) => free_in(self.entries@, self.entries@.len() as int) == Some(i as int) && i < self.entries@.len(),
                None => free_in(self.entries@, self.entries@.len() as int) is None,
            },
    {
        let mut found: Option<usize> = None;
        let mut i: usize = 0;
        while i < self.entries.len()
            invariant
                i <= self.entries@.len(),
                match found {
                    Some(k) => free_in(self.entries@, i as int) == Some(k as int) && k < i,
                    None => free_in(self.entries@, i as int) is None,
                },
            decreases self.entries@.len() - i,
        {
            if found.is_none() && !self.entries[i].used {
                found = Some(i);
            }
            i = i + 1;
        }
        found
    }

    /// What happens once the chain has no entry: room is made, and the
    /// segment is created if there is a slot for it.
    pub open spec fn loads(&self, dropped: Seq<u32>, es: Seq<Entry>, bytes: int, len: u64, cap: u64, created: bool, unpin: Seq<u32>) -> bool {
        let r = make_room(es, bytes, len as int, cap as int);
        &&& self.entries@ == r.0
        &&& self.bytes == r.1
        &&& unpin == dropped + r.2
        &&& created == free_in(r.0, MAX_ENTRIES as int) is Some
    }

    /// Look for `w`'s segment, under the registry's lock, in a cache of `cap`
    /// bytes. Another segment at the same block is stale: it is dropped.
    pub fn shared_bytes(&mut self, w: &Wanted, cap: u64) -> (r: LoadAction)
        requires
            old(self).wf(),
            old(self).clock < u64::MAX,
            w.len <= cap,
        ensures
            final(self).wf(),
            final(self).clock == old(self).clock + 1,
            r is Create ==> {
                &&& find_in(final(self).entries@, w.loc, w.head, MAX_ENTRIES as int) is None
                &&& free_in(final(self).entries@, MAX_ENTRIES as int) is Some
                &&& final(self).bytes + w.len <= cap
            },
            match find_in(old(self).entries@, w.loc, w.head, MAX_ENTRIES as int) {
                Some(i) => {
                    let e = old(self).entries@[i];
                    if e.id == w.id && e.len == w.len {
                        r == LoadAction::Attach(e.handle) && final(self).entries@ == old(self).entries@ && final(self).bytes == old(self).bytes
                    } else {
                        match r {
                            LoadAction::Create(h) => final(self).loads(
                                seq![e.handle],
                                without(old(self).entries@, i),
                                old(self).bytes - e.len,
                                w.len,
                                cap,
                                true,
                                h@,
                            ),
                            LoadAction::Private(h) => final(self).loads(
                                seq![e.handle],
                                without(old(self).entries@, i),
                                old(self).bytes - e.len,
                                w.len,
                                cap,
                                false,
                                h@,
                            ),
                            _ => false,
                        }
                    }
                },
                None => match r {
                    LoadAction::Create(h) => final(self).loads(Seq::empty(), old(self).entries@, old(self).bytes as int, w.len, cap, true, h@),
                    LoadAction::Private(h) => final(self).loads(Seq::empty(), old(self).entries@, old(self).bytes as int, w.len, cap, false, h@),
                    _ => false,
                },
            },
    {
        self.clock = self.clock + 1;
        let mut dropped: Vec<u32> = Vec::new();
        proof {
            lemma_find(self.entries@, w.loc, w.head, MAX_ENTRIES as int);
        }
        if let Some(i) = self.find(w.loc, w.head) {
            let e: Entry = self.entries[i];
            if e.id == w.id && e.len == w.len {
                return LoadAction::Attach(e.handle);
            }
            let h: u32 = self.drop_entry(i);
            dropped.push(h);
            proof {
                assert(dropped@ =~= seq![e.handle]);
            }
        }
        let ghost mid = self.entries@;
        let r: LoadAction = self.load(dropped, w.len, cap);
        proof {
            lemma_gone(mid, self.entries@, w.loc, w.head);
        }
        r
    }

    fn load(&mut self, dropped: Vec<u32>, len: u64, cap: u64) -> (r: LoadAction)
        requires
            old(self).wf(),
            len <= cap,
        ensures
            final(self).wf(),
            final(self).clock == old(self).clock,
            final(self).bytes + len <= cap,
            forall|k: int| 0 <= k < MAX_ENTRIES && (#[trigger] final(self).entries@[k]).used ==> final(self).entries@[k] == old(self).entries@[k],
            match r {
                LoadAction::Create(h) => final(self).loads(dropped@, old(self).entries@, old(self).bytes as int, len, cap, true, h@),
                LoadAction::Private(h) => final(self).loads(dropped@, old(self).entries@, old(self).bytes as int, len, cap, false, h@),
                _ => false,
            },
    {
        let evicted: Vec<u32> = self.evict(len, cap);
        let unpin: Vec<u32> = chained(dropped, &evicted);
        match self.free_slot() {
            Some(_) => LoadAction::Create(unpin),
            None => LoadAction::Private(unpin),
        }
    }

    /// Whether the shared copy that [`shared_bytes`](Self::shared_bytes) named
    /// could be mapped and is the wanted segment's (a dropped index's relfile
    /// number can come back for a new index, so its first page must match).
    /// If not, the entry is stale: it is dropped and the segment loaded
    /// afresh.
    pub fn attached(&mut self, w: &Wanted, cap: u64, ok: bool) -> (r: LoadAction)
        requires
            old(self).wf(),
            w.len <= cap,
            find_in(old(self).entries@, w.loc, w.head, MAX_ENTRIES as int) is Some,
        ensures
            final(self).wf(),
            final(self).clock == old(self).clock,
            r is Create ==> {
                &&& find_in(final(self).entries@, w.loc, w.head, MAX_ENTRIES as int) is None
                &&& free_in(final(self).entries@, MAX_ENTRIES as int) is Some
                &&& final(self).bytes + w.len <= cap
            },
            ({
                let i = find_in(old(self).entries@, w.loc, w.head, MAX_ENTRIES as int)->0;
                let e = old(self).entries@[i];
                if ok {
                    &&& r == LoadAction::Done
                    &&& final(self).entries@ == old(self).entries@.update(i, Entry { last_use: old(self).clock, ..e })
                    &&& final(self).bytes == old(self).bytes
                } else {
                    match r {
                        LoadAction::Create(h) => final(self).loads(
                            seq![e.handle],
                            without(old(self).entries@, i),
                            old(self).bytes - e.len,
                            w.len,
                            cap,
                            true,
                            h@,
                        ),
                        LoadAction::Private(h) => final(self).loads(
                            seq![e.handle],
                            without(old(self).entries@, i),
                            old(self).bytes - e.len,
                            w.len,
                            cap,
                            false,
                            h@,
                        ),
                        _ => false,
                    }
                }
            }),
    {
        let ghost es = self.entries@;
        proof {
            lemma_find(self.entries@, w.loc, w.head, MAX_ENTRIES as int);
        }
        let i: usize = match self.find(w.loc, w.head) {
            Some(i) => i,
            None => vstd::pervasive::unreached(),
        };
        if ok {
            let mut e: Entry = self.entries[i];
            e.last_use = self.clock;
            self.entries.set(i, e);
            proof {
                lemma_touch(es, i as int, e, MAX_ENTRIES as int);
                assert forall|a: int, b: int| 0 <= a < b < self.entries@.len() && (#[trigger] self.entries@[a]).used && (#[trigger] self.entries@[b]).used
                    implies self.entries@[a].loc != self.entries@[b].loc || self.entries@[a].head != self.entries@[b].head by {
                    assert(es[a].used && es[b].used);
                }
            }
            return LoadAction::Done;
        }
        let mut dropped: Vec<u32> = Vec::new();
        let h: u32 = self.drop_entry(i);
        dropped.push(h);
        proof {
            assert(dropped@ =~= seq![es[i as int].handle]);
        }
        let ghost mid = self.entries@;
        let r: LoadAction = self.load(dropped, w.len, cap);
        proof {
            lemma_gone(mid, self.entries@, w.loc, w.head);
        }
        r
    }

    /// The shared memory that was asked for, if it could be had: the segment
    /// gets an entry in the first free slot.
    pub fn created(&mut self, w: &Wanted, handle: Option<u32>) -> (r: LoadAction)
        requires
            old(self).wf(),
            old(self).bytes + w.len <= u64::MAX,
            find_in(old(self).entries@, w.loc, w.head, MAX_ENTRIES as int) is None,
            free_in(old(self).entries@, MAX_ENTRIES as int) is Some,
        ensures
            final(self).wf(),
            final(self).clock == old(self).clock,
            match handle {
                Some(h) => {
                    let e = Entry { used: true, loc: w.loc, head: w.head, id: w.id, len: w.len, handle: h, last_use: old(self).clock };
                    &&& r == LoadAction::Done
                    &&& final(self).entries@ == old(self).entries@.update(free_in(old(self).entries@, MAX_ENTRIES as int)->0, e)
                    &&& final(self).bytes == old(self).bytes + w.len
                },
                None => {
                    &&& r matches LoadAction::Private(v) && v@.len() == 0
                    &&& final(self).entries@ == old(self).entries@
                    &&& final(self).bytes == old(self).bytes
                },
            },
    {
        let ghost es = self.entries@;
        let h: u32 = match handle {
            Some(h) => h,
            None => {
                return LoadAction::Private(Vec::new());
            },
        };
        proof {
            lemma_free(es, MAX_ENTRIES as int);
            lemma_find(es, w.loc, w.head, MAX_ENTRIES as int);
        }
        let i: usize = match self.free_slot() {
            Some(i) => i,
            None => vstd::pervasive::unreached(),
        };
        let e: Entry = Entry { used: true, loc: w.loc, head: w.head, id: w.id, len: w.len, handle: h, last_use: self.clock };
        self.entries.set(i, e);
        self.bytes = self.bytes + w.len;
        proof {
            lemma_with(es, i as int, e, MAX_ENTRIES as int);
            assert forall|a: int, b: int| 0 <= a < b < self.entries@.len() && (#[trigger] self.entries@[a]).used && (#[trigger] self.entries@[b]).used
                implies self.entries@[a].loc != self.entries@[b].loc || self.entries@[a].head != self.entries@[b].head by {
                assert(!is_same(es[a], w.loc, w.head));
                assert(!is_same(es[b], w.loc, w.head));
            }
        }
        LoadAction::Done
    }

    /// Put a just-installed segment into shared memory, so readers map it
    /// instead of copying it in. Best effort: skipped if it doesn't fit.
    pub fn publish(&mut self, w: &Wanted, cap: u64) -> (r: PublishAction)
        requires
            old(self).wf(),
            old(self).clock < u64::MAX,
            w.len <= cap,
        ensures
            final(self).wf(),
            r is Create ==> {
                &&& find_in(final(self).entries@, w.loc, w.head, MAX_ENTRIES as int) is None
                &&& free_in(final(self).entries@, MAX_ENTRIES as int) is Some
                &&& final(self).bytes + w.len <= cap
            },
            ({
                let found = find_in(old(self).entries@, w.loc, w.head, MAX_ENTRIES as int);
                if found is Some && old(self).entries@[found->0].id == w.id {
                    &&& r == PublishAction::Present
                    &&& final(self).entries@ == old(self).entries@
                    &&& final(self).bytes == old(self).bytes
                    &&& final(self).clock == old(self).clock
                } else {
                    let (dropped, es, bytes) = match found {
                        Some(i) => (seq![old(self).entries@[i].handle], without(old(self).entries@, i), old(self).bytes - old(self).entries@[i].len),
                        None => (Seq::<u32>::empty(), old(self).entries@, old(self).bytes as int),
                    };
                    &&& final(self).clock == old(self).clock + 1
                    &&& match r {
                        PublishAction::Create(h) => final(self).loads(dropped, es, bytes, w.len, cap, true, h@),
                        PublishAction::Skip(h) => final(self).loads(dropped, es, bytes, w.len, cap, false, h@),
                        PublishAction::Present => false,
                    }
                }
            }),
    {
        let mut dropped: Vec<u32> = Vec::new();
        proof {
            lemma_find(self.entries@, w.loc, w.head, MAX_ENTRIES as int);
        }
        if let Some(i) = self.find(w.loc, w.head) {
            let e: Entry = self.entries[i];
            if e.id == w.id {
                return PublishAction::Present;
            }
            let h: u32 = self.drop_entry(i);
            dropped.push(h);
            proof {
                assert(dropped@ =~= seq![e.handle]);
            }
        }
        self.clock = self.clock + 1;
        let ghost mid = self.entries@;
        let r: LoadAction = self.load(dropped, w.len, cap);
        proof {
            lemma_gone(mid, self.entries@, w.loc, w.head);
        }
        match r {
            LoadAction::Create(h) => PublishAction::Create(h),
            LoadAction::Private(h) => PublishAction::Skip(h),
            _ => vstd::pervasive::unreached(),
        }
    }

    /// The segments whose chains start at `heads` are being freed: drop their
    /// entries. Returns the handles to unpin.
    pub fn forget(&mut self, loc: Locator, heads: &[u32]) -> (r: Vec<u32>)
        requires
            old(self).wf(),
        ensures
            final(self).wf(),
            final(self).clock == old(self).clock,
            forall|i: int| 0 <= i < MAX_ENTRIES ==> #[trigger] final(self).entries@[i] == (if forgotten(old(self).entries@[i], loc, heads@) {
                Entry { used: false, ..old(self).entries@[i] }
            } else {
                old(self).entries@[i]
            }),
            r@ == handles_of(old(self).entries@, loc, heads@, MAX_ENTRIES as int),
    {
        let ghost es = self.entries@;
        let ghost clock = self.clock;
        let mut out: Vec<u32> = Vec::new();
        let mut i: usize = 0;
        while i < MAX_ENTRIES
            invariant
                i <= MAX_ENTRIES,
                self.wf(),
                self.clock == clock,
                es.len() == MAX_ENTRIES,
                forall|k: int| 0 <= k < i ==> #[trigger] self.entries@[k] == (if forgotten(es[k], loc, heads@) {
                    Entry { used: false, ..es[k] }
                } else {
                    es[k]
                }),
                forall|k: int| i <= k < MAX_ENTRIES ==> #[trigger] self.entries@[k] == es[k],
                out@ == handles_of(es, loc, heads@, i as int),
            decreases MAX_ENTRIES - i,
        {
            let e: Entry = self.entries[i];
            let mut hit: bool = false;
            let mut j: usize = 0;
            while j < heads.len()
                invariant
                    j <= heads@.len(),
                    hit == exists|k: int| 0 <= k < j && is_same(e, loc, #[trigger] heads@[k]),
                decreases heads@.len() - j,
            {
                if e.used && e.loc == loc && e.head == heads[j] {
                    hit = true;
                }
                proof {
                    assert(is_same(e, loc, heads@[j as int]) ==> hit);
                }
                j = j + 1;
            }
            if hit {
                let h: u32 = self.drop_entry(i);
                out.push(h);
            }
            i = i + 1;
        }
        out
    }

    /// (entries, bytes) in the registry.
    pub fn stats(&self) -> (r: (u64, u64))
        requires
            self.wf(),
        ensures
            r.0 == used_in(self.entries@, MAX_ENTRIES as int),
            r.1 == total_in(self.entries@, MAX_ENTRIES as int),
    {
        let mut n: u64 = 0;
        let mut i: usize = 0;
        while i < self.entries.len()
            invariant
                self.entries@.len() == MAX_ENTRIES,
                i <= self.entries@.len(),
                n == used_in(self.entries@, i as int),
                n <= i,
            decreases self.entries@.len() - i,
        {
            if self.entries[i].used {
                n = n + 1;
            }
            i = i + 1;
        }
        (n, self.bytes)
    }
}

/// A chain without an entry has none after others are dropped.
proof fn lemma_gone(before: Seq<Entry>, after: Seq<Entry>, loc: Locator, head: u32)
    requires
        before.len() == MAX_ENTRIES,
        after.len() == MAX_ENTRIES,
        forall|k: int| 0 <= k < MAX_ENTRIES ==> !is_same(#[trigger] before[k], loc, head),
        forall|k: int| 0 <= k < MAX_ENTRIES && (#[trigger] after[k]).used ==> after[k] == before[k],
    ensures
        find_in(after, loc, head, MAX_ENTRIES as int) is None,
{
    lemma_find(after, loc, head, MAX_ENTRIES as int);
    if let Some(i) = find_in(after, loc, head, MAX_ENTRIES as int) {
        assert(!is_same(before[i], loc, head));
    }
}

/// Whether an entry is for one of the chains.
pub open spec fn forgotten(e: Entry, loc: Locator, heads: Seq<u32>) -> bool {
    exists|k: int| 0 <= k < heads.len() && is_same(e, loc, #[trigger] heads[k])
}

/// The handles of the forgotten entries among the first `n`.
pub open spec fn handles_of(es: Seq<Entry>, loc: Locator, heads: Seq<u32>, n: int) -> Seq<u32>
    decreases n,
{
    if n <= 0 {
        Seq::empty()
    } else if forgotten(es[n - 1], loc, heads) {
        handles_of(es, loc, heads, n - 1).push(es[n - 1].handle)
    } else {
        handles_of(es, loc, heads, n - 1)
    }
}

fn chained(a: Vec<u32>, b: &Vec<u32>) -> (r: Vec<u32>)
    ensures
        r@ == a@ + b@,
{
    let ghost start = a@;
    let mut out: Vec<u32> = a;
    let mut i: usize = 0;
    while i < b.len()
        invariant
            i <= b@.len(),
            out@ == start + b@.take(i as int),
        decreases b@.len() - i,
    {
        out.push(b[i]);
        i = i + 1;
        proof {
            assert(out@ =~= start + b@.take(i as int));
        }
    }
    proof {
        assert(b@.take(i as int) =~= b@);
    }
    out
}

/// Whether a segment of `len` bytes is read privately: sharing is off, or it
/// is larger than the whole cache.
pub fn stays_private(len: u64, cap: u64) -> (r: bool)
    ensures
        r == (cap == 0 || len > cap),
{
    cap == 0 || len > cap
}

// ---------------------------------------------------------------------------
// Laws
// ---------------------------------------------------------------------------

/// Making room for a segment that fits the cache makes enough of it, keeps
/// the books, and touches no entry that stays.
pub proof fn room_is_made(es: Seq<Entry>, len: int, cap: int)
    requires
        0 <= len <= cap,
        one_each(es),
    ensures
        ({
            let r = make_room(es, total_in(es, es.len() as int), len, cap);
            &&& r.0.len() == es.len()
            &&& r.1 == total_in(r.0, es.len() as int)
            &&& r.1 + len <= cap
            &&& one_each(r.0)
            &&& forall|k: int| 0 <= k < es.len() && (#[trigger] r.0[k]).used ==> r.0[k] == es[k]
        }),
{
    lemma_room(es, total_in(es, es.len() as int), len, cap);
}

/// Whatever is dropped to make room was used no later than whatever stays.
pub proof fn least_recent_goes_first(es: Seq<Entry>, len: int, cap: int, a: int, b: int)
    requires
        0 <= a < es.len(),
        0 <= b < es.len(),
        es[a].used,
        one_each(es),
        0 <= len,
        !make_room(es, total_in(es, es.len() as int), len, cap).0[a].used,
        make_room(es, total_in(es, es.len() as int), len, cap).0[b].used,
    ensures
        es[a].last_use <= es[b].last_use,
    decreases used_in(es, es.len() as int),
{
    let n = es.len() as int;
    let bytes = total_in(es, n);
    lemma_oldest(es, n);
    lemma_room(es, bytes, len, cap);
    assert(es[b].used);
    if bytes + len > cap {
        if let Some(i) = oldest_in(es, n) {
            lemma_without(es, i, n);
            let rest = without(es, i);
            if i == a {
                assert(es[i].last_use <= es[b].last_use);
            } else {
                assert(one_each(rest)) by {
                    assert forall|x: int, y: int| 0 <= x < y < rest.len() && (#[trigger] rest[x]).used && (#[trigger] rest[y]).used implies rest[x].loc
                        != rest[y].loc || rest[x].head != rest[y].head by {
                        assert(es[x].used && es[y].used);
                    }
                }
                lemma_room(rest, bytes - es[i].len, len, cap);
                assert(rest[b].used);
                least_recent_goes_first(rest, len, cap, a, b);
            }
        }
    }
}

/// A lookup gives the entry in use for the chain, and nothing if there is
/// none.
pub proof fn lookups_find_the_entry(es: Seq<Entry>, loc: Locator, head: u32)
    ensures
        match find_in(es, loc, head, es.len() as int) {
            Some(i) => 0 <= i < es.len() && es[i].used && es[i].loc == loc && es[i].head == head,
            None => forall|k: int| 0 <= k < es.len() ==> !((#[trigger] es[k]).used && es[k].loc == loc && es[k].head == head),
        },
{
    lemma_find_law(es, loc, head, es.len() as int);
}

proof fn lemma_find_law(es: Seq<Entry>, loc: Locator, head: u32, n: int)
    requires
        0 <= n <= es.len(),
    ensures
        match find_in(es, loc, head, n) {
            Some(i) => 0 <= i < n && es[i].used && es[i].loc == loc && es[i].head == head,
            None => forall|k: int| 0 <= k < n ==> !((#[trigger] es[k]).used && es[k].loc == loc && es[k].head == head),
        },
    decreases n,
{
    if n > 0 {
        lemma_find_law(es, loc, head, n - 1);
    }
}

/// A free place is found if there is one.
pub proof fn free_places_are_found(es: Seq<Entry>)
    ensures
        match free_in(es, es.len() as int) {
            Some(i) => 0 <= i < es.len() && !es[i].used,
            None => forall|k: int| 0 <= k < es.len() ==> (#[trigger] es[k]).used,
        },
{
    lemma_free_law(es, es.len() as int);
}

proof fn lemma_free_law(es: Seq<Entry>, n: int)
    requires
        0 <= n <= es.len(),
    ensures
        match free_in(es, n) {
            Some(i) => 0 <= i < n && !es[i].used,
            None => forall|k: int| 0 <= k < n ==> (#[trigger] es[k]).used,
        },
    decreases n,
{
    if n > 0 {
        lemma_free_law(es, n - 1);
    }
}

/// Forgetting chains gives up the copies of exactly those chains.
pub proof fn forgotten_chains_are_given_up(es: Seq<Entry>, loc: Locator, heads: Seq<u32>, h: u32)
    ensures
        handles_of(es, loc, heads, es.len() as int).contains(h) <==> exists|i: int|
            0 <= i < es.len() && (#[trigger] es[i]).used && es[i].loc == loc && heads.contains(es[i].head) && es[i].handle == h,
{
    lemma_handles_law(es, loc, heads, h, es.len() as int);
}

proof fn lemma_handles_law(es: Seq<Entry>, loc: Locator, heads: Seq<u32>, h: u32, n: int)
    requires
        0 <= n <= es.len(),
    ensures
        handles_of(es, loc, heads, n).contains(h) <==> exists|i: int|
            0 <= i < n && (#[trigger] es[i]).used && es[i].loc == loc && heads.contains(es[i].head) && es[i].handle == h,
    decreases n,
{
    if n > 0 {
        lemma_handles_law(es, loc, heads, h, n - 1);
        let (all, less) = (handles_of(es, loc, heads, n), handles_of(es, loc, heads, n - 1));
        let e = es[n - 1];
        assert(forgotten(e, loc, heads) <==> e.used && e.loc == loc && heads.contains(e.head)) by {
            if forgotten(e, loc, heads) {
                let k = choose|k: int| 0 <= k < heads.len() && is_same(e, loc, #[trigger] heads[k]);
                assert(heads[k] == e.head);
            }
            if e.used && e.loc == loc && heads.contains(e.head) {
                let k = heads.index_of(e.head);
                assert(is_same(e, loc, heads[k]));
            }
        }
        if all.contains(h) {
            let k = all.index_of(h);
            if k < less.len() {
                assert(less[k] == h);
                assert(less.contains(h));
            } else {
                assert(e.handle == h);
            }
        }
        if less.contains(h) {
            let k = less.index_of(h);
            assert(all[k] == h);
        }
        if forgotten(e, loc, heads) {
            assert(all[less.len() as int] == e.handle);
        }
    }
}

} // verus!
