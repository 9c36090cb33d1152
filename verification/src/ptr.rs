//! Owner, weak and strong handles over an arena of entries with stable
//! indices.
//!
//! Asynchronous callbacks need a non-owning handle to a value that may be
//! gone by the time they run.  Instead of wiring a value to itself through
//! interior mutability, the values live in an [`Arena`]; a handle is an
//! index into it.  Every entry carries a strong count — the owner plus the
//! outstanding strong handles.  The count keeps the entry alive: the value
//! is dropped exactly when the count reaches zero, and a weak handle
//! upgrades exactly while the entry is alive.  Entries are never reused,
//! so a stale index can never reach a later value.

use vstd::prelude::*;

use core::marker::PhantomData;

verus! {

/// A stored value together with a weak handle to its own entry, so that a
/// value can hand out non-owning handles to itself.
pub struct Wrap<T> {
    this: Weak<T>,
    pub t: T,
}

impl<T> Wrap<T> {
    /// The weak handle to this value's own entry.
    pub fn weak(&self) -> (w: Weak<T>)
        ensures
            w.id_spec() == self.this_spec(),
    {
        self.this.clone()
    }

    /// Where this value's own weak handle points.
    pub closed spec fn this_spec(self) -> int {
        self.this.id_spec()
    }

    /// The stored value.
    pub closed spec fn t_spec(self) -> T {
        self.t
    }
}

struct Entry<T> {
    strong: u64,
    val: Option<Wrap<T>>,
}

/// The arena: a growing sequence of entries, each alive exactly while its
/// strong count is positive.
pub struct Arena<T> {
    entries: Vec<Entry<T>>,
}

impl<T> Arena<T> {
    /// How many entries were ever created.
    pub closed spec fn dom(self) -> int {
        self.entries@.len() as int
    }

    /// The strong count of an entry.
    pub closed spec fn strong_of(self, i: int) -> u64 {
        self.entries@[i].strong
    }

    /// The stored value of an entry, while it is alive.
    pub closed spec fn entry_of(self, i: int) -> Option<Wrap<T>> {
        self.entries@[i].val
    }

    /// Whether the entry holds a value.
    pub open spec fn live(self, i: int) -> bool {
        0 <= i < self.dom() && self.entry_of(i) is Some
    }

    /// An entry is alive exactly while its strong count is positive.
    pub closed spec fn wf(self) -> bool {
        forall|i: int|
            0 <= i < self.dom() ==> ((#[trigger] self.entries@[i]).val is Some <==> self.entries@[i].strong
                > 0)
    }

    /// The entries other than `i` stand untouched.
    pub open spec fn same_except(self, other: Arena<T>, i: int) -> bool {
        &&& other.dom() == self.dom()
        &&& forall|j: int|
            0 <= j < self.dom() && j != i ==> #[trigger] other.entry_of(j) == self.entry_of(j)
                && other.strong_of(j) == self.strong_of(j)
    }

    /// An empty arena.
    pub fn new() -> (a: Arena<T>)
        ensures
            a.wf(),
            a.dom() == 0,
    {
        Arena { entries: Vec::new() }
    }
}

/// The owning handle of one entry.  It counts one in the entry's strong
/// count and cannot be cloned; releasing it gives that count back.
pub struct Owned<T> {
    id: usize,
    marker: PhantomData<T>,
}

/// A non-owning handle: an index that may point at a dead entry.  Cloning
/// it is free; it counts nothing.
pub struct Weak<T> {
    id: usize,
    marker: PhantomData<T>,
}

impl<T> Clone for Weak<T> {
    fn clone(&self) -> (w: Self)
        ensures
            w.id_spec() == self.id_spec(),
    {
        Weak { id: self.id, marker: PhantomData }
    }
}

/// A strong handle obtained from an owner or by upgrading a weak handle.
/// It counts one in the entry's strong count, keeps the entry alive, and
/// cannot be cloned; releasing it gives the count back.
pub struct Ref<T> {
    id: usize,
    marker: PhantomData<T>,
}

impl<T> Owned<T> {
    /// The entry this handle owns.
    pub closed spec fn id_spec(self) -> int {
        self.id as int
    }

    /// Store a value in a fresh entry and own it.  The value's own weak
    /// handle points at the new entry.
    pub fn new(arena: &mut Arena<T>, t: T) -> (o: Owned<T>)
        requires
            old(arena).wf(),
        ensures
            final(arena).wf(),
            o.id_spec() == old(arena).dom(),
            final(arena).dom() == old(arena).dom() + 1,
            forall|j: int|
                0 <= j < old(arena).dom() ==> #[trigger] final(arena).entry_of(j) == old(
                    arena,
                ).entry_of(j) && final(arena).strong_of(j) == old(arena).strong_of(j),
            final(arena).live(o.id_spec()),
            final(arena).strong_of(o.id_spec()) == 1,
            final(arena).entry_of(o.id_spec()).unwrap().t_spec() == t,
            final(arena).entry_of(o.id_spec()).unwrap().this_spec() == o.id_spec(),
    {
        let ghost pre = *arena;
        let id = arena.entries.len();
        let wrap = Wrap { this: Weak { id, marker: PhantomData }, t };
        arena.entries.push(Entry { strong: 1, val: Some(wrap) });
        proof {
            assert forall|j: int| 0 <= j < arena.dom() implies ((#[trigger] arena.entries@[j]).val
                is Some <==> arena.entries@[j].strong > 0) by {
                if j < pre.dom() {
                    assert(arena.entries@[j] == pre.entries@[j]);
                }
            }
        }
        Owned { id, marker: PhantomData }
    }

    /// A weak handle to the owned entry.
    pub fn downgrade(owned: &Self) -> (w: Weak<T>)
        ensures
            w.id_spec() == owned.id_spec(),
    {
        Weak { id: owned.id, marker: PhantomData }
    }

    /// A strong handle to the owned entry, counted in its strong count.
    pub fn reference(owned: &Self, arena: &mut Arena<T>) -> (r: Ref<T>)
        requires
            old(arena).wf(),
            old(arena).live(owned.id_spec()),
            old(arena).strong_of(owned.id_spec()) < u64::MAX,
        ensures
            final(arena).wf(),
            r.id_spec() == owned.id_spec(),
            final(arena).same_except(*old(arena), owned.id_spec()),
            final(arena).entry_of(owned.id_spec()) == old(arena).entry_of(owned.id_spec()),
            final(arena).strong_of(owned.id_spec()) == old(arena).strong_of(owned.id_spec()) + 1,
    {
        let ghost pre = *arena;
        {
            let entry = &mut arena.entries[owned.id];
            entry.strong = entry.strong + 1;
        }
        proof {
            lemma_bump_keeps_wf(pre, *arena, owned.id_spec());
        }
        Ref { id: owned.id, marker: PhantomData }
    }

    /// Mutable access to the owned value, granted exactly while the owner
    /// is the only strong count — no strong handle is outstanding.
    pub fn get_mut<'a>(owned: &Owned<T>, arena: &'a mut Arena<T>) -> (r: Option<&'a mut Wrap<T>>)
        requires
            old(arena).wf(),
            old(arena).live(owned.id_spec()),
        ensures
            r is Some <==> old(arena).strong_of(owned.id_spec()) == 1,
            r matches Option::Some(w) ==> *w == old(arena).entry_of(owned.id_spec()).unwrap(),
            r matches Option::Some(w) ==> final(arena).entry_of(owned.id_spec()) == Option::Some(
                *final(w),
            ),
            final(arena).wf(),
            final(arena).same_except(*old(arena), owned.id_spec()),
            final(arena).live(owned.id_spec()),
            final(arena).strong_of(owned.id_spec()) == old(arena).strong_of(owned.id_spec()),
            r is None ==> final(arena).entry_of(owned.id_spec()) == old(arena).entry_of(
                owned.id_spec(),
            ),
    {
        let strong = arena.entries[owned.id].strong;
        if strong == 1 {
            let entry = &mut arena.entries[owned.id];
            entry.val.as_mut()
        } else {
            None
        }
    }

    /// Give the owner's strong count back.  With no strong handle
    /// outstanding, the entry dies and the value is returned; otherwise
    /// the outstanding handles keep it alive.
    pub fn release(owned: Owned<T>, arena: &mut Arena<T>) -> (r: Option<Wrap<T>>)
        requires
            old(arena).wf(),
            old(arena).live(owned.id_spec()),
        ensures
            final(arena).wf(),
            final(arena).same_except(*old(arena), owned.id_spec()),
            final(arena).strong_of(owned.id_spec()) == old(arena).strong_of(owned.id_spec()) - 1,
            old(arena).strong_of(owned.id_spec()) == 1 ==> r == old(arena).entry_of(
                owned.id_spec(),
            ) && !final(arena).live(owned.id_spec()),
            old(arena).strong_of(owned.id_spec()) > 1 ==> r is None && final(arena).entry_of(
                owned.id_spec(),
            ) == old(arena).entry_of(owned.id_spec()),
    {
        release_strong(owned.id, arena)
    }
}

impl<T> Weak<T> {
    /// The entry this handle points at.
    pub closed spec fn id_spec(self) -> int {
        self.id as int
    }

    /// A handle that points at no entry: it never upgrades.
    pub fn new() -> (w: Weak<T>)
        ensures
            w.id_spec() == usize::MAX,
    {
        Weak { id: usize::MAX, marker: PhantomData }
    }

    /// A strong handle to the entry, exactly while the entry is alive;
    /// a dead or never-assigned entry gives nothing.
    pub fn upgrade(&self, arena: &mut Arena<T>) -> (r: Option<Ref<T>>)
        requires
            old(arena).wf(),
            old(arena).live(self.id_spec()) ==> old(arena).strong_of(self.id_spec()) < u64::MAX,
        ensures
            final(arena).wf(),
            r is Some <==> old(arena).live(self.id_spec()),
            (match r {
                Option::Some(rf) => {
                    &&& rf.id_spec() == self.id_spec()
                    &&& final(arena).same_except(*old(arena), self.id_spec())
                    &&& final(arena).entry_of(self.id_spec()) == old(arena).entry_of(
                        self.id_spec(),
                    )
                    &&& final(arena).strong_of(self.id_spec()) == old(arena).strong_of(
                        self.id_spec(),
                    ) + 1
                },
                Option::None => *final(arena) == *old(arena),
            }),
    {
        if self.id < arena.entries.len() {
            let ghost pre = *arena;
            let alive = arena.entries[self.id].strong > 0;
            if alive {
                {
                    let entry = &mut arena.entries[self.id];
                    entry.strong = entry.strong + 1;
                }
                proof {
                    lemma_bump_keeps_wf(pre, *arena, self.id_spec());
                }
                Some(Ref { id: self.id, marker: PhantomData })
            } else {
                None
            }
        } else {
            None
        }
    }
}

impl<T> Ref<T> {
    /// The entry this handle keeps alive.
    pub closed spec fn id_spec(self) -> int {
        self.id as int
    }

    /// The value the handle keeps alive.
    pub fn get<'a>(&self, arena: &'a Arena<T>) -> (w: &'a Wrap<T>)
        requires
            arena.wf(),
            arena.live(self.id_spec()),
        ensures
            Option::Some(*w) == arena.entry_of(self.id_spec()),
    {
        match &arena.entries[self.id].val {
            Some(w) => w,
            None => unreached(),
        }
    }

    /// Give the strong count back.  As the last count, the entry dies and
    /// the value is returned; otherwise it stays with the others.
    pub fn release(self, arena: &mut Arena<T>) -> (r: Option<Wrap<T>>)
        requires
            old(arena).wf(),
            old(arena).live(self.id_spec()),
        ensures
            final(arena).wf(),
            final(arena).same_except(*old(arena), self.id_spec()),
            final(arena).strong_of(self.id_spec()) == old(arena).strong_of(self.id_spec()) - 1,
            old(arena).strong_of(self.id_spec()) == 1 ==> r == old(arena).entry_of(self.id_spec())
                && !final(arena).live(self.id_spec()),
            old(arena).strong_of(self.id_spec()) > 1 ==> r is None && final(arena).entry_of(
                self.id_spec(),
            ) == old(arena).entry_of(self.id_spec()),
    {
        release_strong(self.id, arena)
    }
}

/// Give one strong count of the entry back, dropping the value with the
/// last count.
fn release_strong<T>(id: usize, arena: &mut Arena<T>) -> (r: Option<Wrap<T>>)
    requires
        old(arena).wf(),
        old(arena).live(id as int),
    ensures
        final(arena).wf(),
        final(arena).same_except(*old(arena), id as int),
        final(arena).strong_of(id as int) == old(arena).strong_of(id as int) - 1,
        old(arena).strong_of(id as int) == 1 ==> r == old(arena).entry_of(id as int)
            && !final(arena).live(id as int),
        old(arena).strong_of(id as int) > 1 ==> r is None && final(arena).entry_of(id as int)
            == old(arena).entry_of(id as int),
{
    let ghost pre = *arena;
    let r: Option<Wrap<T>>;
    {
        let entry = &mut arena.entries[id];
        entry.strong = entry.strong - 1;
        r = if entry.strong == 0 {
            entry.val.take()
        } else {
            None
        };
    }
    proof {
        assert forall|j: int| 0 <= j < arena.dom() implies ((#[trigger] arena.entries@[j]).val
            is Some <==> arena.entries@[j].strong > 0) by {
            if j != id as int {
                assert(arena.entries@[j] == pre.entries@[j]);
            }
        }
        assert forall|j: int| 0 <= j < pre.dom() && j != id as int implies #[trigger] arena.entry_of(
            j,
        ) == pre.entry_of(j) && arena.strong_of(j) == pre.strong_of(j) by {
            assert(arena.entries@[j] == pre.entries@[j]);
        }
    }
    r
}

/// Raising a strong count of a live entry keeps every entry in step.
proof fn lemma_bump_keeps_wf<T>(pre: Arena<T>, post: Arena<T>, i: int)
    requires
        pre.wf(),
        pre.live(i),
        pre.strong_of(i) < u64::MAX,
        post.dom() == pre.dom(),
        post.entries@ == pre.entries@.update(
            i,
            Entry { strong: (pre.strong_of(i) + 1) as u64, val: pre.entries@[i].val },
        ),
    ensures
        post.wf(),
        post.same_except(pre, i),
        post.entry_of(i) == pre.entry_of(i),
        post.strong_of(i) == pre.strong_of(i) + 1,
{
    assert forall|j: int| 0 <= j < post.dom() implies ((#[trigger] post.entries@[j]).val is Some
        <==> post.entries@[j].strong > 0) by {
        if j != i {
            assert(post.entries@[j] == pre.entries@[j]);
        }
    }
    assert forall|j: int| 0 <= j < pre.dom() && j != i implies #[trigger] post.entry_of(j)
        == pre.entry_of(j) && post.strong_of(j) == pre.strong_of(j) by {
        assert(post.entries@[j] == pre.entries@[j]);
    }
}

} // verus!
