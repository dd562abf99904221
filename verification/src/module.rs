//! Tables that a loaded module shares with the supervisor: pending
//! invocations, kept in a fixed array threaded by a free list, and the
//! module's dependency slots.
use vstd::prelude::*;
use crate::vmem::Root;

verus! {

/// Number of invocation slots; slot 0 holds the head of the free list.
pub const INVOCATIONS: usize = 0x400;

/// Number of dependency slots.
pub const DEPENDENCIES: usize = 0x200;

/// Marks the end of the free list.
pub const END: usize = usize::MAX;

/// A call into a module that waits for its response.
#[derive(Debug, Clone, Copy)]
pub struct Invocation {
    pub satp: Root,
    pub sepc: usize,
    pub sp: usize,
}

/// A slot `(a, b, c)`: `a` is the caller's root (0 while the slot is free),
/// `b` its program counter, or the next free slot while the slot is free,
/// and `c` its stack pointer.
pub type Slot = (usize, usize, usize);

/// Slot contents for `inv`.
pub open spec fn slot_of(inv: Invocation) -> Slot {
    (inv.satp.value(), inv.sepc, inv.sp)
}

/// The free list head: the `b` word of slot 0.
pub open spec fn head(s: Seq<Slot>) -> usize {
    s[0].1
}

/// Slots and result of inserting `e`: the head slot is taken off the free
/// list and filled; with the list empty or its head out of range nothing
/// changes and there is no slot.
pub open spec fn after_insert(s: Seq<Slot>, e: Slot) -> (Seq<Slot>, Option<u16>) {
    let h = head(s);
    if h == END || h >= s.len() {
        (s, None)
    } else {
        let next = s[h as int].1;
        let s1 = s.update(0, (s[0].0, next, s[0].2));
        (s1.update(h as int, e), Some(h as u16))
    }
}

/// Slots after returning slot `id` to the front of the free list.
pub open spec fn after_remove(s: Seq<Slot>, id: int) -> Seq<Slot> {
    let s1 = s.update(id, (0usize, head(s), s[id].2));
    s1.update(0, (s1[0].0, id as usize, s1[0].2))
}

/// The used slot `id`, if it is in range and holds a root.
pub open spec fn lookup(s: Seq<Slot>, id: int) -> Option<Slot> {
    if 0 <= id < s.len() && s[id].0 != 0 {
        Some(s[id])
    } else {
        None
    }
}

/// `b` word of slot `i` after `init`: slot 0 points at slot 1, each slot at
/// the next and the last one ends the list.
pub open spec fn init_link(i: int) -> usize {
    if i == 0 {
        1
    } else if i == INVOCATIONS - 1 {
        END
    } else {
        (i + 1) as usize
    }
}

/// Pending invocations of a module.
pub struct InvocationsTable {
    slots: [Slot; 0x400],
}

impl View for InvocationsTable {
    type V = Seq<Slot>;

    closed spec fn view(&self) -> Seq<Slot> {
        self.slots@
    }
}

impl InvocationsTable {
    /// The table has `INVOCATIONS` slots.
    pub proof fn lemma_len(&self)
        ensures
            self@.len() == INVOCATIONS,
    {
    }

    /// A table in zeroed memory.
    pub fn new() -> (r: Self)
        ensures
            r@ =~= Seq::new(INVOCATIONS as nat, |i: int| (0usize, 0usize, 0usize)),
    {
        InvocationsTable { slots: [(0usize, 0usize, 0usize); 0x400] }
    }

    /// Link all slots but slot 0 into the free list, in order.
    pub fn init(&mut self)
        ensures
            forall|i: int| 0 <= i < INVOCATIONS ==> #[trigger] final(self)@[i] == (old(self)@[i].0, init_link(i), old(self)@[i].2),
            final(self)@.len() == INVOCATIONS,
    {
        let mut i: usize = 1;
        while i < INVOCATIONS - 1
            invariant
                1 <= i <= INVOCATIONS - 1,
                self.slots@.len() == INVOCATIONS,
                forall|j: int| 1 <= j < i ==> #[trigger] self.slots@[j] == (old(self)@[j].0, init_link(j), old(self)@[j].2),
                forall|j: int| (j == 0 || i <= j < INVOCATIONS) ==> #[trigger] self.slots@[j] == old(self)@[j],
            decreases INVOCATIONS - 1 - i,
        {
            let (a, _, c) = self.slots[i];
            self.slots[i] = (a, i + 1, c);
            i = i + 1;
        }
        let (a, _, c) = self.slots[INVOCATIONS - 1];
        self.slots[INVOCATIONS - 1] = (a, END, c);
        let (a, _, c) = self.slots[0];
        self.slots[0] = (a, 1, c);
    }

    /// Take a slot off the free list and store `invocation` in it; `None`
    /// when no slot is free.
    pub fn insert(&mut self, invocation: Invocation) -> (r: Option<u16>)
        ensures
            (final(self)@, r) == after_insert(old(self)@, slot_of(invocation)),
            final(self)@.len() == INVOCATIONS,
    {
        let head_ptr = self.slots[0].1;
        if head_ptr == END {
            return None;
        }
        if head_ptr >= INVOCATIONS {
            return None;
        }
        let next = self.slots[head_ptr].1;
        let (a0, _, c0) = self.slots[0];
        self.slots[0] = (a0, next, c0);
        let Invocation { satp, sepc, sp } = invocation;
        self.slots[head_ptr] = (satp.get(), sepc, sp);
        Some(head_ptr as u16)
    }

    /// Mark slot `id` free and put it at the front of the free list.
    pub fn remove(&mut self, id: u16)
        requires
            id < INVOCATIONS,
        ensures
            final(self)@ == after_remove(old(self)@, id as int),
            final(self)@.len() == INVOCATIONS,
    {
        let id = id as usize;
        let head_ptr = self.slots[0].1;
        let (_, _, c) = self.slots[id];
        self.slots[id] = (0, head_ptr, c);
        let (a0, _, c0) = self.slots[0];
        self.slots[0] = (a0, id, c0);
    }

    /// The invocation in slot `id`, if the slot exists and is used.
    pub fn get(&self, id: u16) -> (r: Option<Invocation>)
        ensures
            r is Some <==> lookup(self@, id as int) is Some,
            r matches Some(inv) ==> lookup(self@, id as int) == Some(slot_of(inv)),
    {
        if id as usize >= INVOCATIONS {
            return None;
        }
        let (a, b, c) = self.slots[id as usize];
        match Root::new(a) {
            Some(satp) => Some(Invocation { satp, sepc: b, sp: c }),
            None => None,
        }
    }
}

/// A module that this module calls, and where.
#[derive(Debug, Clone, Copy, PartialEq, Eq, Structural)]
pub struct Dependency {
    pub stem: usize,
    pub sepc: usize,
}

/// The dependency slots of a module.
pub struct DependenciesTable {
    slots: [Dependency; 0x200],
}

impl View for DependenciesTable {
    type V = Seq<Dependency>;

    closed spec fn view(&self) -> Seq<Dependency> {
        self.slots@
    }
}

impl DependenciesTable {
    /// The table has `DEPENDENCIES` slots.
    pub proof fn lemma_len(&self)
        ensures
            self@.len() == DEPENDENCIES,
    {
    }

    /// A table in zeroed memory.
    pub fn new() -> (r: Self)
        ensures
            r@ =~= Seq::new(DEPENDENCIES as nat, |i: int| Dependency { stem: 0, sepc: 0 }),
    {
        DependenciesTable { slots: [Dependency { stem: 0, sepc: 0 }; 0x200] }
    }

    /// Store `dependency` in `slot`; a slot out of range is ignored.
    pub fn put(&mut self, slot: u16, dependency: Dependency)
        ensures
            slot < DEPENDENCIES ==> final(self)@ == old(self)@.update(slot as int, dependency),
            slot >= DEPENDENCIES ==> final(self)@ == old(self)@,
            final(self)@.len() == DEPENDENCIES,
    {
        if (slot as usize) < DEPENDENCIES {
            self.slots[slot as usize] = dependency;
        }
    }

    /// The dependency in `slot`, if the slot exists.
    pub fn get(&self, slot: u16) -> (r: Option<Dependency>)
        ensures
            slot < DEPENDENCIES ==> r == Some(self@[slot as int]),
            slot >= DEPENDENCIES ==> r is None,
    {
        if (slot as usize) < DEPENDENCIES {
            Some(self.slots[slot as usize])
        } else {
            None
        }
    }
}

/// The tables a module shares with the supervisor.
pub struct ModuleTables {
    pub invocations: InvocationsTable,
    pub dependencies: DependenciesTable,
}

impl ModuleTables {
    /// Tables in zeroed memory.
    pub fn new() -> (r: Self)
        ensures
            r.invocations@ =~= Seq::new(INVOCATIONS as nat, |i: int| (0usize, 0usize, 0usize)),
            r.dependencies@ =~= Seq::new(DEPENDENCIES as nat, |i: int| Dependency { stem: 0, sepc: 0 }),
    {
        ModuleTables { invocations: InvocationsTable::new(), dependencies: DependenciesTable::new() }
    }
}

/// `n` consecutive insertions, the `k`-th one of `es[k]`.
pub open spec fn inserts(s: Seq<Slot>, es: Seq<Slot>, n: nat) -> Seq<Slot>
    decreases n,
{
    if n == 0 {
        s
    } else {
        after_insert(inserts(s, es, (n - 1) as nat), es[n - 1]).0
    }
}

/// An inserted invocation is found again under the slot that `insert`
/// returned.
pub proof fn law_insert_then_get(s: Seq<Slot>, e: Slot)
    requires
        s.len() == INVOCATIONS,
        e.0 != 0,
    ensures
        after_insert(s, e).1 matches Some(id) ==> lookup(after_insert(s, e).0, id as int) == Some(e),
{
}

/// A removed slot is free, and it is the slot that the next insertion
/// takes; unless it was slot 0, that insertion restores the free list head.
pub proof fn law_remove_then_insert(s: Seq<Slot>, id: int, e: Slot)
    requires
        s.len() == INVOCATIONS,
        0 <= id < INVOCATIONS,
    ensures
        lookup(after_remove(s, id), id) is None,
        after_insert(after_remove(s, id), e).1 == Some(id as u16),
        id != 0 ==> head(after_insert(after_remove(s, id), e).0) == head(s),
{
}

/// After `init`, insertions of any invocations hand out slots 1, 2, ... in
/// order, each exactly once, and the list is exhausted after the last slot.
pub proof fn law_init_hands_out_in_order(s: Seq<Slot>, es: Seq<Slot>, e: Slot, k: nat)
    requires
        s.len() == INVOCATIONS,
        forall|i: int| 0 <= i < INVOCATIONS ==> #[trigger] s[i].1 == init_link(i),
        k < INVOCATIONS,
    ensures
        k < INVOCATIONS - 1 ==> after_insert(inserts(s, es, k), e).1 == Some((k + 1) as u16),
        k == INVOCATIONS - 1 ==> after_insert(inserts(s, es, k), e).1 is None,
{
    lemma_inserts_from_init(s, es, k);
}

proof fn lemma_inserts_from_init(s: Seq<Slot>, es: Seq<Slot>, k: nat)
    requires
        s.len() == INVOCATIONS,
        forall|i: int| 0 <= i < INVOCATIONS ==> #[trigger] s[i].1 == init_link(i),
        k < INVOCATIONS,
    ensures
        inserts(s, es, k).len() == INVOCATIONS,
        head(inserts(s, es, k)) == init_link(k as int),
        forall|j: int| k < j < INVOCATIONS ==> #[trigger] inserts(s, es, k)[j].1 == init_link(j),
    decreases k,
{
    if k > 0 {
        lemma_inserts_from_init(s, es, (k - 1) as nat);
        let p = inserts(s, es, (k - 1) as nat);
        assert(head(p) == k);
        assert(p[k as int].1 == init_link(k as int));
    }
}

/// A stored dependency is read back from its slot, and other slots keep
/// theirs.
pub proof fn law_dependency_put_then_get(s: Seq<Dependency>, slot: int, d: Dependency, other: int)
    requires
        s.len() == DEPENDENCIES,
        0 <= slot < DEPENDENCIES,
        0 <= other < DEPENDENCIES,
        other != slot,
    ensures
        s.update(slot, d)[slot] == d,
        s.update(slot, d)[other] == s[other],
{
}

} // verus!
