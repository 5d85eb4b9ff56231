use vstd::prelude::*;
use crate::namemap::NameMap;
use crate::text::{decimal, push_decimal, string_append};
use crate::value::{GcRef, Value};

verus! {

/// The environment of a closure: the name of its code and its captured bindings.
pub struct ClosureObject {
    pub func_name: String,
    pub env: NameMap<Value>,
}

/// What a heap slot holds.
pub enum HeapObjectKind {
    Array(Vec<Value>),
    Object(NameMap<Value>),
    Closure(ClosureObject),
}

/// The abstract contents of a heap object.
pub enum ObjectView {
    Array(Seq<Value>),
    Object(Map<Seq<char>, Value>),
    Closure(Seq<char>, Map<Seq<char>, Value>),
}

impl HeapObjectKind {
    pub open spec fn view_of(self) -> ObjectView {
        match self {
            HeapObjectKind::Array(v) => ObjectView::Array(v@),
            HeapObjectKind::Object(m) => ObjectView::Object(m@),
            HeapObjectKind::Closure(c) => ObjectView::Closure(c.func_name@, c.env@),
        }
    }

    pub open spec fn wf(self) -> bool {
        match self {
            HeapObjectKind::Array(_) => true,
            HeapObjectKind::Object(m) => m.wf(),
            HeapObjectKind::Closure(c) => c.env.wf(),
        }
    }
}

/// Counts returned by the heap after a collection or on request.
#[derive(Debug, Default, Clone)]
pub struct HeapStats {
    pub live_objects: usize,
    pub freed_objects: usize,
}

/// Object `o` holds a value that refers to slot `h`.
pub open spec fn holds_ref(o: ObjectView, h: usize) -> bool {
    match o {
        ObjectView::Array(s) => exists|i: int| 0 <= i < s.len() && #[trigger] s[i].heap_ref() == Some(h),
        ObjectView::Object(m) => exists|k: Seq<char>|
            m.contains_key(k) && #[trigger] m[k].heap_ref() == Some(h),
        ObjectView::Closure(_, m) => exists|k: Seq<char>|
            m.contains_key(k) && #[trigger] m[k].heap_ref() == Some(h),
    }
}

/// Some root value refers to slot `h`.
pub open spec fn root_ref(roots: Seq<Value>, h: usize) -> bool {
    exists|i: int| 0 <= i < roots.len() && #[trigger] roots[i].heap_ref() == Some(h)
}

/// `p` is a chain of references: `p[0]` is referred to by a root, and each slot before the
/// last is a live object that holds a reference to the next.
pub open spec fn is_ref_path(objs: Map<usize, ObjectView>, roots: Seq<Value>, p: Seq<usize>) -> bool {
    &&& p.len() > 0
    &&& root_ref(roots, p[0])
    &&& forall|i: int|
        0 <= i < p.len() - 1 ==> objs.contains_key(#[trigger] p[i]) && holds_ref(objs[p[i]], p[i + 1])
}

/// Slot `h` can be reached from the roots by following references through live objects.
pub open spec fn reachable(objs: Map<usize, ObjectView>, roots: Seq<Value>, h: usize) -> bool {
    exists|p: Seq<usize>| #[trigger] is_ref_path(objs, roots, p) && p.last() == h
}

/// The live objects that a collection keeps: those reachable from the roots.
pub open spec fn collected(objs: Map<usize, ObjectView>, roots: Seq<Value>) -> Map<
    usize,
    ObjectView,
> {
    objs.restrict(Set::new(|h: usize| reachable(objs, roots, h)))
}

/// A collection keeps, unchanged, every live object that a root refers to.
pub proof fn lemma_root_kept(objs: Map<usize, ObjectView>, roots: Seq<Value>, h: usize)
    requires
        root_ref(roots, h),
        objs.contains_key(h),
    ensures
        collected(objs, roots).contains_key(h),
        collected(objs, roots)[h] == objs[h],
{
    let p = seq![h];
    assert(is_ref_path(objs, roots, p));
    assert(reachable(objs, roots, h));
}

/// The kept objects are closed under references: what a kept object refers to, if live,
/// is kept too.
pub proof fn lemma_kept_closed(objs: Map<usize, ObjectView>, roots: Seq<Value>, h: usize, c: usize)
    requires
        collected(objs, roots).contains_key(h),
        holds_ref(collected(objs, roots)[h], c),
        objs.contains_key(c),
    ensures
        collected(objs, roots).contains_key(c),
        collected(objs, roots)[c] == objs[c],
{
    assert(reachable(objs, roots, h));
    let p = choose|p: Seq<usize>| #[trigger] is_ref_path(objs, roots, p) && p.last() == h;
    let q = p.push(c);
    assert forall|i: int| 0 <= i < q.len() - 1 implies objs.contains_key(#[trigger] q[i]) && holds_ref(objs[q[i]], q[i + 1]) by {
        if i < p.len() - 1 {
            assert(q[i] == p[i]);
            assert(q[i + 1] == p[i + 1]);
        } else {
            assert(q[i] == h);
            assert(q[i + 1] == c);
        }
    }
    assert(q[0] == p[0]);
    assert(is_ref_path(objs, roots, q));
    assert(reachable(objs, roots, c));
}

/// A collection frees nothing that can be reached and keeps nothing that cannot: it is the
/// identity on a heap whose live objects are all reachable.
pub proof fn lemma_collect_reachable_heap(objs: Map<usize, ObjectView>, roots: Seq<Value>)
    requires
        forall|h: usize| #[trigger] objs.contains_key(h) ==> reachable(objs, roots, h),
    ensures
        collected(objs, roots) == objs,
{
    assert(collected(objs, roots) =~= objs);
}

/// Collecting a second time with the same roots changes nothing: what the first collection
/// kept is all reachable.
pub proof fn lemma_collect_idempotent(objs: Map<usize, ObjectView>, roots: Seq<Value>)
    ensures
        collected(collected(objs, roots), roots) == collected(objs, roots),
{
    let c = collected(objs, roots);
    assert forall|h: usize| #[trigger] c.contains_key(h) implies reachable(c, roots, h) by {
        let p = choose|p: Seq<usize>| #[trigger] is_ref_path(objs, roots, p) && p.last() == h;
        assert forall|i: int| 0 <= i < p.len() - 1 implies c.contains_key(#[trigger] p[i]) && holds_ref(c[p[i]], p[i + 1]) by {
            let q = p.take(i + 1);
            assert forall|j: int| 0 <= j < q.len() - 1 implies objs.contains_key(#[trigger] q[j]) && holds_ref(objs[q[j]], q[j + 1]) by {
                assert(q[j] == p[j]);
                assert(q[j + 1] == p[j + 1]);
            }
            assert(q[0] == p[0]);
            assert(is_ref_path(objs, roots, q));
            assert(q.last() == p[i]);
            assert(reachable(objs, roots, p[i]));
        }
        assert(is_ref_path(c, roots, p));
    }
    lemma_collect_reachable_heap(c, roots);
}

/// A collection depends on which values the roots hold, not on their order or repeats.
pub proof fn lemma_collected_same_roots(objs: Map<usize, ObjectView>, r1: Seq<Value>, r2: Seq<Value>)
    requires
        forall|x: Value| r1.contains(x) <==> r2.contains(x),
    ensures
        collected(objs, r1) == collected(objs, r2),
{
    assert forall|h: usize| root_ref(r1, h) <==> root_ref(r2, h) by {
        if root_ref(r1, h) {
            let i = choose|i: int| 0 <= i < r1.len() && #[trigger] r1[i].heap_ref() == Some(h);
            assert(r1.contains(r1[i]));
            let j = choose|j: int| 0 <= j < r2.len() && r2[j] == r1[i];
            assert(r2[j].heap_ref() == Some(h));
        }
        if root_ref(r2, h) {
            let i = choose|i: int| 0 <= i < r2.len() && #[trigger] r2[i].heap_ref() == Some(h);
            assert(r2.contains(r2[i]));
            let j = choose|j: int| 0 <= j < r1.len() && r1[j] == r2[i];
            assert(r1[j].heap_ref() == Some(h));
        }
    }
    assert forall|p: Seq<usize>| is_ref_path(objs, r1, p) <==> is_ref_path(objs, r2, p) by {}
    assert forall|h: usize| reachable(objs, r1, h) <==> reachable(objs, r2, h) by {
        if reachable(objs, r1, h) {
            let p = choose|p: Seq<usize>| #[trigger] is_ref_path(objs, r1, p) && p.last() == h;
            assert(is_ref_path(objs, r2, p));
        }
        if reachable(objs, r2, h) {
            let p = choose|p: Seq<usize>| #[trigger] is_ref_path(objs, r2, p) && p.last() == h;
            assert(is_ref_path(objs, r1, p));
        }
    }
    assert(collected(objs, r1) =~= collected(objs, r2));
}

pub open spec fn invalid_handle_msg() -> Seq<char> {
    "invalid handle"@
}

pub open spec fn dangling_handle_msg() -> Seq<char> {
    "dangling handle"@
}

pub open spec fn out_of_bounds_msg(idx: nat, len: nat) -> Seq<char> {
    "index out of bounds: "@ + decimal(idx) + " (len="@ + decimal(len) + ")"@
}

struct HeapObject {
    marked: bool,
    kind: HeapObjectKind,
}

/// A heap of slots with a free list, collected by mark and sweep.
pub struct Heap {
    objects: Vec<Option<HeapObject>>,
    free_list: Vec<usize>,
}

impl View for Heap {
    type V = Map<usize, ObjectView>;

    closed spec fn view(&self) -> Map<usize, ObjectView> {
        Map::new(
            |i: usize| (i as int) < self.objects@.len() && self.objects@[i as int] is Some,
            |i: usize| self.objects@[i as int]->0.kind.view_of(),
        )
    }
}

/// The slots below `n` that hold an object in `before` and none in `after`, in increasing
/// order: what a sweep over the first `n` slots frees.
pub open spec fn newly_freed(before: Map<usize, ObjectView>, after: Map<usize, ObjectView>, n: nat) -> Seq<usize>
    decreases n,
{
    if n == 0 {
        Seq::empty()
    } else {
        let k = (n - 1) as usize;
        newly_freed(before, after, (n - 1) as nat) + if before.contains_key(k) && !after.contains_key(k) {
            seq![k]
        } else {
            Seq::empty()
        }
    }
}

impl Heap {
    /// The number of slots the heap has ever handed out (live or free).
    pub closed spec fn slots(&self) -> nat {
        self.objects@.len()
    }

    /// The freed slots that allocation takes again, the last one first.
    pub closed spec fn free_slots(&self) -> Seq<usize> {
        self.free_list@
    }

    /// The handles that allocation has returned so far, on this heap and every heap it was
    /// built from: `new` starts with none, each `alloc_*` adds the handle it returns, and no
    /// other call changes it.
    pub open spec fn handed_out(&self) -> Set<usize> {
        Set::new(|i: usize| (i as nat) < self.slots())
    }

    pub closed spec fn wf(&self) -> bool {
        &&& forall|i: int|
            0 <= i < self.objects@.len() && (#[trigger] self.objects@[i]) is Some ==> !self.objects@[i]->0.marked
                && self.objects@[i]->0.kind.wf()
        &&& forall|j: int|
            0 <= j < self.free_list@.len() ==> (#[trigger] self.free_list@[j]) < self.objects@.len()
                && self.objects@[self.free_list@[j] as int] is None
        &&& forall|a: int, b: int|
            0 <= a < self.free_list@.len() && 0 <= b < self.free_list@.len() && #[trigger] self.free_list@[a]
                == #[trigger] self.free_list@[b] ==> a == b
        &&& self@.dom().finite()
        &&& self.free_list@.len() + self@.dom().len() == self.objects@.len()
    }

    /// What every heap built by the public calls satisfies: live handles and free slots lie
    /// below the slot count, no free slot is live, and live plus free is the slot count.
    pub proof fn lemma_dom_bounded(&self)
        requires
            self.wf(),
        ensures
            forall|h: usize| #[trigger] self@.contains_key(h) ==> h < self.slots(),
            self@.dom().finite(),
            self@.dom().len() <= self.slots(),
            self@.dom().len() + self.free_slots().len() == self.slots(),
            forall|j: int|
                0 <= j < self.free_slots().len() ==> #[trigger] self.free_slots()[j] < self.slots()
                    && !self@.contains_key(self.free_slots()[j]),
    {
    }

    /// What `stats` counts, on a heap built by any sequence of public calls: the live
    /// objects are the live handles, and live plus freed is one more than the largest handle
    /// that allocation ever returned, or 0 when it returned none.
    pub proof fn lemma_stats_count_handles(&self)
        requires
            self.wf(),
        ensures
            self@.dom().len() + self.free_slots().len() == self.slots(),
            self.slots() == 0 <==> self.handed_out() == Set::<usize>::empty(),
            forall|h: usize| #[trigger] self.handed_out().contains(h) ==> h < self.slots(),
            self.slots() > 0 ==> self.handed_out().contains((self.slots() - 1) as usize),
    {
        if self.slots() == 0 {
            assert(self.handed_out() =~= Set::<usize>::empty());
        } else {
            assert(self.handed_out().contains((self.slots() - 1) as usize));
        }
    }

    pub fn new() -> (h: Heap)
        ensures
            h.wf(),
            h@ == Map::<usize, ObjectView>::empty(),
            h.slots() == 0,
            h.free_slots() == Seq::<usize>::empty(),
            h.handed_out() == Set::<usize>::empty(),
    {
        let h = Heap { objects: Vec::new(), free_list: Vec::new() };
        assert(h@ =~= Map::<usize, ObjectView>::empty());
        assert(h.handed_out() =~= Set::<usize>::empty());
        h
    }

    /// Counts the live objects.
    fn count_live(&self) -> (n: usize)
        requires
            self.wf(),
        ensures
            n == self@.dom().len(),
    {
        let mut n: usize = 0;
        let mut i: usize = 0;
        let ghost objs = self.objects@;
        assert(Set::new(|j: usize| (j as int) < 0 && objs[j as int] is Some) =~= Set::<usize>::empty());
        while i < self.objects.len()
            invariant
                objs == self.objects@,
                i <= objs.len(),
                n <= i,
                Set::new(|j: usize| (j as int) < i && objs[j as int] is Some).finite(),
                n == Set::new(|j: usize| (j as int) < i && objs[j as int] is Some).len(),
            decreases objs.len() - i,
        {
            let ghost before = Set::new(|j: usize| (j as int) < i && objs[j as int] is Some);
            let ghost after = Set::new(|j: usize| (j as int) < i + 1 && objs[j as int] is Some);
            if self.objects[i].is_some() {
                assert(after =~= before.insert(i));
                n = n + 1;
            } else {
                assert(after =~= before);
            }
            i = i + 1;
        }
        assert(Set::new(|j: usize| (j as int) < i && objs[j as int] is Some) =~= self@.dom());
        n
    }

    /// The number of live objects and of freed slots waiting to be reused.
    pub fn stats(&self) -> (s: HeapStats)
        requires
            self.wf(),
        ensures
            s.live_objects == self@.dom().len(),
            s.freed_objects == self.slots() - self@.dom().len(),
            s.freed_objects == self.free_slots().len(),
            s.live_objects + s.freed_objects == self.slots(),
    {
        let live_objects = self.count_live();
        HeapStats { live_objects, freed_objects: self.free_list.len() }
    }

    fn alloc_slot(&mut self, kind: HeapObjectKind) -> (h: GcRef)
        requires
            old(self).wf(),
            kind.wf(),
        ensures
            final(self).wf(),
            !old(self)@.contains_key(h.0),
            final(self)@ == old(self)@.insert(h.0, kind.view_of()),
            h.0 <= old(self).slots(),
            final(self).slots() == if h.0 == old(self).slots() {
                old(self).slots() + 1
            } else {
                old(self).slots()
            },
            final(self)@.dom().finite(),
            final(self)@.dom().len() == old(self)@.dom().len() + 1,
            final(self).handed_out() == old(self).handed_out().insert(h.0),
            if old(self).free_slots().len() > 0 {
                &&& h.0 == old(self).free_slots().last()
                &&& final(self).free_slots() == old(self).free_slots().drop_last()
            } else {
                &&& h.0 == old(self).slots()
                &&& final(self).free_slots() == old(self).free_slots()
            },
    {
        let ghost k = kind.view_of();
        let obj = HeapObject { marked: false, kind };
        let ghost old_heap = *old(self);
        match self.free_list.pop() {
            Some(idx) => {
                assert(old_heap.free_list@[old_heap.free_list@.len() - 1] == idx);
                self.objects.set(idx, Some(obj));
                proof {
                    assert(!old_heap@.contains_key(idx));
                    assert(self@ =~= old_heap@.insert(idx, k));
                    assert(self.handed_out() =~= old_heap.handed_out().insert(idx));
                    assert forall|j: int|
                        0 <= j < self.free_list@.len() implies (#[trigger] self.free_list@[j])
                        < self.objects@.len() && self.objects@[self.free_list@[j] as int] is None by {
                        assert(old_heap.free_list@[j] == self.free_list@[j]);
                        assert(self.free_list@[j] != idx);
                    }
                    assert forall|a: int, b: int|
                        0 <= a < self.free_list@.len() && 0 <= b < self.free_list@.len()
                            && #[trigger] self.free_list@[a] == #[trigger] self.free_list@[b] implies a
                        == b by {
                        assert(old_heap.free_list@[a] == self.free_list@[a]);
                        assert(old_heap.free_list@[b] == self.free_list@[b]);
                    }
                }
                GcRef(idx)
            },
            None => {
                let idx = self.objects.len();
                self.objects.push(Some(obj));
                proof {
                    assert(!old_heap@.contains_key(idx));
                    assert(self@ =~= old_heap@.insert(idx, k));
                    assert(self.handed_out() =~= old_heap.handed_out().insert(idx));
                }
                GcRef(idx)
            },
        }
    }

    /// Stores an array and returns its handle: the slot freed last, if any, else a new one.
    pub fn alloc_array(&mut self, elements: Vec<Value>) -> (h: GcRef)
        requires
            old(self).wf(),
        ensures
            final(self).wf(),
            !old(self)@.contains_key(h.0),
            final(self)@ == old(self)@.insert(h.0, ObjectView::Array(elements@)),
            h.0 <= old(self).slots(),
            final(self).slots() == if h.0 == old(self).slots() {
                old(self).slots() + 1
            } else {
                old(self).slots()
            },
            final(self)@.dom().finite(),
            final(self)@.dom().len() == old(self)@.dom().len() + 1,
            final(self).handed_out() == old(self).handed_out().insert(h.0),
            if old(self).free_slots().len() > 0 {
                &&& h.0 == old(self).free_slots().last()
                &&& final(self).free_slots() == old(self).free_slots().drop_last()
            } else {
                &&& h.0 == old(self).slots()
                &&& final(self).free_slots() == old(self).free_slots()
            },
    {
        self.alloc_slot(HeapObjectKind::Array(elements))
    }

    /// Stores an object and returns its handle: the slot freed last, if any, else a new one.
    pub fn alloc_object(&mut self, entries: NameMap<Value>) -> (h: GcRef)
        requires
            old(self).wf(),
            entries.wf(),
        ensures
            final(self).wf(),
            !old(self)@.contains_key(h.0),
            final(self)@ == old(self)@.insert(h.0, ObjectView::Object(entries@)),
            h.0 <= old(self).slots(),
            final(self).slots() == if h.0 == old(self).slots() {
                old(self).slots() + 1
            } else {
                old(self).slots()
            },
            final(self)@.dom().finite(),
            final(self)@.dom().len() == old(self)@.dom().len() + 1,
            final(self).handed_out() == old(self).handed_out().insert(h.0),
            if old(self).free_slots().len() > 0 {
                &&& h.0 == old(self).free_slots().last()
                &&& final(self).free_slots() == old(self).free_slots().drop_last()
            } else {
                &&& h.0 == old(self).slots()
                &&& final(self).free_slots() == old(self).free_slots()
            },
    {
        self.alloc_slot(HeapObjectKind::Object(entries))
    }

    /// Stores a closure and returns its handle: the slot freed last, if any, else a new one.
    pub fn alloc_closure(&mut self, func_name: String, env: NameMap<Value>) -> (h: GcRef)
        requires
            old(self).wf(),
            env.wf(),
        ensures
            final(self).wf(),
            !old(self)@.contains_key(h.0),
            final(self)@ == old(self)@.insert(h.0, ObjectView::Closure(func_name@, env@)),
            h.0 <= old(self).slots(),
            final(self).slots() == if h.0 == old(self).slots() {
                old(self).slots() + 1
            } else {
                old(self).slots()
            },
            final(self)@.dom().finite(),
            final(self)@.dom().len() == old(self)@.dom().len() + 1,
            final(self).handed_out() == old(self).handed_out().insert(h.0),
            if old(self).free_slots().len() > 0 {
                &&& h.0 == old(self).free_slots().last()
                &&& final(self).free_slots() == old(self).free_slots().drop_last()
            } else {
                &&& h.0 == old(self).slots()
                &&& final(self).free_slots() == old(self).free_slots()
            },
    {
        self.alloc_slot(HeapObjectKind::Closure(ClosureObject { func_name, env }))
    }

    fn get(&self, handle: GcRef) -> (r: Option<&HeapObject>)
        requires
            self.wf(),
        ensures
            match r {
                Some(o) => self@.contains_key(handle.0) && o.kind.view_of() == self@[handle.0]
                    && o.kind.wf(),
                None => !self@.contains_key(handle.0),
            },
    {
        if handle.0 < self.objects.len() {
            match &self.objects[handle.0] {
                Some(o) => Some(o),
                None => None,
            }
        } else {
            None
        }
    }

    pub fn closure_func_name(&self, handle: GcRef) -> (r: Option<&str>)
        requires
            self.wf(),
        ensures
            match r {
                Some(name) => self@.contains_key(handle.0) && self@[handle.0] is Closure
                    && self@[handle.0]->Closure_0 == name@,
                None => !(self@.contains_key(handle.0) && self@[handle.0] is Closure),
            },
    {
        match self.get(handle) {
            Some(o) => match &o.kind {
                HeapObjectKind::Closure(c) => Some(c.func_name.as_str()),
                _ => None,
            },
            None => None,
        }
    }

    pub fn closure_get(&self, handle: GcRef, key: &str) -> (r: Option<&Value>)
        requires
            self.wf(),
        ensures
            match r {
                Some(v) => self@.contains_key(handle.0) && self@[handle.0] is Closure
                    && self@[handle.0]->Closure_1.contains_key(key@) && *v
                    == self@[handle.0]->Closure_1[key@],
                None => !(self@.contains_key(handle.0) && self@[handle.0] is Closure
                    && self@[handle.0]->Closure_1.contains_key(key@)),
            },
    {
        match self.get(handle) {
            Some(o) => match &o.kind {
                HeapObjectKind::Closure(c) => c.env.get(key),
                _ => None,
            },
            None => None,
        }
    }

    pub fn closure_contains(&self, handle: GcRef, key: &str) -> (b: bool)
        requires
            self.wf(),
        ensures
            b == (self@.contains_key(handle.0) && self@[handle.0] is Closure
                && self@[handle.0]->Closure_1.contains_key(key@)),
    {
        self.closure_get(handle, key).is_some()
    }

    /// A copy of a closure's captured environment.
    pub fn closure_env_clone(&self, handle: GcRef) -> (r: Option<NameMap<Value>>)
        requires
            self.wf(),
        ensures
            match r {
                Some(m) => self@.contains_key(handle.0) && self@[handle.0] is Closure && m.wf()
                    && m@ == self@[handle.0]->Closure_1,
                None => !(self@.contains_key(handle.0) && self@[handle.0] is Closure),
            },
    {
        match self.get(handle) {
            Some(o) => match &o.kind {
                HeapObjectKind::Closure(c) => Some(copy_env(&c.env)),
                _ => None,
            },
            None => None,
        }
    }

    pub fn array_get(&self, handle: GcRef, idx: usize) -> (r: Option<&Value>)
        requires
            self.wf(),
        ensures
            match r {
                Some(v) => self@.contains_key(handle.0) && self@[handle.0] is Array && idx
                    < self@[handle.0]->Array_0.len() && *v == self@[handle.0]->Array_0[idx as int],
                None => !(self@.contains_key(handle.0) && self@[handle.0] is Array && idx
                    < self@[handle.0]->Array_0.len()),
            },
    {
        match self.get(handle) {
            Some(o) => match &o.kind {
                HeapObjectKind::Array(v) => {
                    if idx < v.len() {
                        Some(&v[idx])
                    } else {
                        None
                    }
                },
                _ => None,
            },
            None => None,
        }
    }

    pub fn object_get(&self, handle: GcRef, key: &str) -> (r: Option<&Value>)
        requires
            self.wf(),
        ensures
            match r {
                Some(v) => self@.contains_key(handle.0) && self@[handle.0] is Object
                    && self@[handle.0]->Object_0.contains_key(key@) && *v
                    == self@[handle.0]->Object_0[key@],
                None => !(self@.contains_key(handle.0) && self@[handle.0] is Object
                    && self@[handle.0]->Object_0.contains_key(key@)),
            },
    {
        match self.get(handle) {
            Some(o) => match &o.kind {
                HeapObjectKind::Object(m) => m.get(key),
                _ => None,
            },
            None => None,
        }
    }

    /// Takes the object out of a live slot; the heap is whole again once `put_back` runs.
    fn take_live(&mut self, handle: GcRef) -> (o: HeapObject)
        requires
            old(self).wf(),
            old(self)@.contains_key(handle.0),
        ensures
            final(self).objects@ == old(self).objects@.update(handle.0 as int, None),
            final(self).free_list@ == old(self).free_list@,
            Some(o) == old(self).objects@[handle.0 as int],
    {
        let mut tmp: Option<HeapObject> = None;
        self.objects.set_and_swap(handle.0, &mut tmp);
        match tmp {
            Some(o) => o,
            None => {
                assert(false);
                HeapObject { marked: false, kind: HeapObjectKind::Array(Vec::new()) }
            },
        }
    }

    /// Puts a (possibly changed) object back into the slot `take_live` emptied.
    fn put_back(&mut self, handle: GcRef, o: HeapObject, Ghost(before): Ghost<Heap>)
        requires
            before.wf(),
            before@.contains_key(handle.0),
            old(self).objects@ == before.objects@.update(handle.0 as int, None),
            old(self).free_list@ == before.free_list@,
            !o.marked,
            o.kind.wf(),
        ensures
            final(self).wf(),
            final(self)@ == before@.insert(handle.0, o.kind.view_of()),
            final(self).slots() == before.slots(),
            final(self).free_list@ == before.free_list@,
    {
        self.objects.set(handle.0, Some(o));
        proof {
            assert(self@ =~= before@.insert(handle.0, o.kind.view_of()));
            assert(self.objects@.len() == before.objects@.len());
            assert forall|j: int|
                0 <= j < self.free_list@.len() implies (#[trigger] self.free_list@[j])
                < self.objects@.len() && self.objects@[self.free_list@[j] as int] is None by {
                assert(before.free_list@[j] == self.free_list@[j]);
            }
            assert forall|i: int|
                0 <= i < self.objects@.len() && (#[trigger] self.objects@[i]) is Some implies !self.objects@[i]->0.marked
                && self.objects@[i]->0.kind.wf() by {
                if i != handle.0 {
                    assert(self.objects@[i] == before.objects@[i]);
                }
            }
        }
    }

    /// Checks that `handle` names a live slot, with the error messages of the heap.
    fn check_live(&self, handle: GcRef) -> (r: Result<(), String>)
        requires
            self.wf(),
        ensures
            r is Ok <==> self@.contains_key(handle.0),
            r matches Err(e) ==> (handle.0 >= self.slots() && e@ == invalid_handle_msg()) || (
            handle.0 < self.slots() && e@ == dangling_handle_msg()),
    {
        if handle.0 >= self.objects.len() {
            let mut e = String::new();
            string_append(&mut e, "invalid handle");
            proof {
                reveal_strlit("invalid handle");
            }
            assert(e@ =~= invalid_handle_msg());
            return Err(e);
        }
        if self.objects[handle.0].is_none() {
            let mut e = String::new();
            string_append(&mut e, "dangling handle");
            proof {
                reveal_strlit("dangling handle");
            }
            assert(e@ =~= dangling_handle_msg());
            return Err(e);
        }
        Ok(())
    }

    pub fn array_set(&mut self, handle: GcRef, idx: usize, value: Value) -> (r: Result<(), String>)
        requires
            old(self).wf(),
        ensures
            final(self).wf(),
            final(self).slots() == old(self).slots(),
            final(self).free_slots() == old(self).free_slots(),
            r is Ok <==> (old(self)@.contains_key(handle.0) && old(self)@[handle.0] is Array && idx
                < old(self)@[handle.0]->Array_0.len()),
            r is Ok ==> final(self)@ == old(self)@.insert(
                handle.0,
                ObjectView::Array(old(self)@[handle.0]->Array_0.update(idx as int, value)),
            ),
            r is Err ==> final(self)@ == old(self)@,
            r matches Err(e) ==> {
                ||| handle.0 >= old(self).slots() && e@ == invalid_handle_msg()
                ||| handle.0 < old(self).slots() && !old(self)@.contains_key(handle.0) && e@
                    == dangling_handle_msg()
                ||| old(self)@.contains_key(handle.0) && !(old(self)@[handle.0] is Array) && e@
                    == "not an array"@
                ||| old(self)@.contains_key(handle.0) && old(self)@[handle.0] is Array && e@
                    == out_of_bounds_msg(idx as nat, old(self)@[handle.0]->Array_0.len())
            },
    {
        self.check_live(handle)?;
        let ghost before = *self;
        let mut obj = self.take_live(handle);
        let r = match &mut obj.kind {
            HeapObjectKind::Array(v) => {
                if idx >= v.len() {
                    let mut e = String::new();
                    string_append(&mut e, "index out of bounds: ");
                    push_decimal(&mut e, idx as u64);
                    string_append(&mut e, " (len=");
                    push_decimal(&mut e, v.len() as u64);
                    string_append(&mut e, ")");
                    proof {
                        reveal_strlit("index out of bounds: ");
                        reveal_strlit(" (len=");
                        reveal_strlit(")");
                    }
                    assert(e@ =~= out_of_bounds_msg(idx as nat, v@.len()));
                    Err(e)
                } else {
                    v.set(idx, value);
                    Ok(())
                }
            },
            _ => {
                let mut e = String::new();
                string_append(&mut e, "not an array");
                Err(e)
            },
        };
        self.put_back(handle, obj, Ghost(before));
        proof {
            if r is Err {
                assert(self@ =~= before@);
            }
        }
        r
    }

    pub fn object_set(&mut self, handle: GcRef, key: String, value: Value) -> (r: Result<
        (),
        String,
    >)
        requires
            old(self).wf(),
        ensures
            final(self).wf(),
            final(self).slots() == old(self).slots(),
            final(self).free_slots() == old(self).free_slots(),
            r is Ok <==> (old(self)@.contains_key(handle.0) && old(self)@[handle.0] is Object),
            r is Ok ==> final(self)@ == old(self)@.insert(
                handle.0,
                ObjectView::Object(old(self)@[handle.0]->Object_0.insert(key@, value)),
            ),
            r is Err ==> final(self)@ == old(self)@,
            r matches Err(e) ==> {
                ||| handle.0 >= old(self).slots() && e@ == invalid_handle_msg()
                ||| handle.0 < old(self).slots() && !old(self)@.contains_key(handle.0) && e@
                    == dangling_handle_msg()
                ||| old(self)@.contains_key(handle.0) && !(old(self)@[handle.0] is Object) && e@
                    == "not an object"@
            },
    {
        self.check_live(handle)?;
        let ghost before = *self;
        let mut obj = self.take_live(handle);
        let r = match &mut obj.kind {
            HeapObjectKind::Object(m) => {
                m.insert(key, value);
                Ok(())
            },
            _ => {
                let mut e = String::new();
                string_append(&mut e, "not an object");
                Err(e)
            },
        };
        self.put_back(handle, obj, Ghost(before));
        proof {
            if r is Err {
                assert(self@ =~= before@);
            }
        }
        r
    }

    pub fn closure_set(&mut self, handle: GcRef, key: String, value: Value) -> (r: Result<
        (),
        String,
    >)
        requires
            old(self).wf(),
        ensures
            final(self).wf(),
            final(self).slots() == old(self).slots(),
            final(self).free_slots() == old(self).free_slots(),
            r is Ok <==> (old(self)@.contains_key(handle.0) && old(self)@[handle.0] is Closure),
            r is Ok ==> final(self)@ == old(self)@.insert(
                handle.0,
                ObjectView::Closure(
                    old(self)@[handle.0]->Closure_0,
                    old(self)@[handle.0]->Closure_1.insert(key@, value),
                ),
            ),
            r is Err ==> final(self)@ == old(self)@,
            r matches Err(e) ==> {
                ||| handle.0 >= old(self).slots() && e@ == invalid_handle_msg()
                ||| handle.0 < old(self).slots() && !old(self)@.contains_key(handle.0) && e@
                    == dangling_handle_msg()
                ||| old(self)@.contains_key(handle.0) && !(old(self)@[handle.0] is Closure) && e@
                    == "not a closure"@
            },
    {
        self.check_live(handle)?;
        let ghost before = *self;
        let mut obj = self.take_live(handle);
        let r = match &mut obj.kind {
            HeapObjectKind::Closure(c) => {
                c.env.insert(key, value);
                Ok(())
            },
            _ => {
                let mut e = String::new();
                string_append(&mut e, "not a closure");
                Err(e)
            },
        };
        self.put_back(handle, obj, Ghost(before));
        proof {
            if r is Err {
                assert(self@ =~= before@);
            }
        }
        r
    }
}


/// Pushes the handles held by the values `vals`, one push per heap value.
fn push_value_refs(vals: &Vec<Value>, work: &mut Vec<usize>)
    ensures
        final(work)@.len() >= old(work)@.len(),
        final(work)@.subrange(0, old(work)@.len() as int) == old(work)@,
        forall|j: int|
            old(work)@.len() <= j < final(work)@.len() ==> holds_ref(
                ObjectView::Array(vals@),
                #[trigger] final(work)@[j],
            ),
        forall|c: usize|
            holds_ref(ObjectView::Array(vals@), c) ==> exists|j: int|
                old(work)@.len() <= j < final(work)@.len() && final(work)@[j] == c,
{
    let ghost start = work@;
    let mut i: usize = 0;
    while i < vals.len()
        invariant
            i <= vals@.len(),
            work@.len() >= start.len(),
            work@.subrange(0, start.len() as int) == start,
            forall|j: int|
                start.len() <= j < work@.len() ==> holds_ref(
                    ObjectView::Array(vals@),
                    #[trigger] work@[j],
                ),
            forall|k: int|
                0 <= k < i && (#[trigger] vals@[k]).heap_ref() is Some ==> exists|j: int|
                    start.len() <= j < work@.len() && work@[j] == vals@[k].heap_ref()->0,
        decreases vals@.len() - i,
    {
        let ghost before = work@;
        match vals[i].handle() {
            Some(h) => {
                work.push(h);
                assert(vals@[i as int].heap_ref() == Some(h));
                assert(work@[work@.len() - 1] == h);
                assert(work@.subrange(0, start.len() as int) =~= before.subrange(0, start.len() as int));
                assert forall|j: int|
                    start.len() <= j < work@.len() implies holds_ref(
                    ObjectView::Array(vals@),
                    #[trigger] work@[j],
                ) by {
                    if j < before.len() {
                        assert(work@[j] == before[j]);
                    }
                }
                assert forall|k: int|
                    0 <= k < i + 1 && (#[trigger] vals@[k]).heap_ref() is Some implies exists|j: int|
                    start.len() <= j < work@.len() && work@[j] == vals@[k].heap_ref()->0 by {
                    if k < i {
                        let j = choose|j: int|
                            start.len() <= j < before.len() && before[j] == vals@[k].heap_ref()->0;
                        assert(work@[j] == before[j]);
                    } else {
                        assert(work@[work@.len() - 1] == h);
                    }
                }
            },
            None => {},
        }
        i = i + 1;
    }
    proof {
        assert forall|c: usize|
            holds_ref(ObjectView::Array(vals@), c) implies exists|j: int|
            start.len() <= j < work@.len() && work@[j] == c by {
            let k = choose|k: int| 0 <= k < vals@.len() && #[trigger] vals@[k].heap_ref() == Some(c);
            assert(vals@[k].heap_ref() is Some);
        }
    }
}

/// Pushes the handles held by the values of a name map.
fn push_map_refs(m: &NameMap<Value>, work: &mut Vec<usize>)
    requires
        m.wf(),
    ensures
        final(work)@.len() >= old(work)@.len(),
        final(work)@.subrange(0, old(work)@.len() as int) == old(work)@,
        forall|j: int|
            old(work)@.len() <= j < final(work)@.len() ==> holds_ref(ObjectView::Object(m@), #[trigger] final(work)@[j]),
        forall|c: usize|
            holds_ref(ObjectView::Object(m@), c) ==> exists|j: int| old(work)@.len() <= j < final(work)@.len() && final(work)@[j] == c,
{
    let ghost start = work@;
    let mut i: usize = 0;
    while i < m.entries.len()
        invariant
            m.wf(),
            i <= m.entries@.len(),
            work@.len() >= start.len(),
            work@.subrange(0, start.len() as int) == start,
            forall|j: int|
                start.len() <= j < work@.len() ==> holds_ref(ObjectView::Object(m@), #[trigger] work@[j]),
            forall|k: int|
                0 <= k < i && (#[trigger] m.value_at(k)).heap_ref() is Some ==> exists|j: int|
                    start.len() <= j < work@.len() && work@[j] == m.value_at(k).heap_ref()->0,
        decreases m.entries@.len() - i,
    {
        let ghost before = work@;
        match m.entries[i].1.handle() {
            Some(h) => {
                work.push(h);
                proof {
                    m.lemma_entry(i as int);
                    assert(m@[m.key_at(i as int)].heap_ref() == Some(h));
                }
                assert(work@.subrange(0, start.len() as int) =~= before.subrange(0, start.len() as int));
                assert forall|j: int|
                    start.len() <= j < work@.len() implies holds_ref(ObjectView::Object(m@), #[trigger] work@[j]) by {
                    if j < before.len() {
                        assert(work@[j] == before[j]);
                    } else {
                        assert(work@[j] == h);
                        assert(m@.contains_key(m.key_at(i as int)));
                    }
                }
                assert forall|k: int|
                    0 <= k < i + 1 && (#[trigger] m.value_at(k)).heap_ref() is Some implies exists|j: int|
                    start.len() <= j < work@.len() && work@[j] == m.value_at(k).heap_ref()->0 by {
                    if k < i {
                        let j = choose|j: int|
                            start.len() <= j < before.len() && before[j] == m.value_at(k).heap_ref()->0;
                        assert(work@[j] == before[j]);
                    } else {
                        assert(work@[work@.len() - 1] == h);
                    }
                }
            },
            None => {},
        }
        i = i + 1;
    }
    proof {
        assert forall|c: usize|
            holds_ref(ObjectView::Object(m@), c) implies exists|j: int|
            start.len() <= j < work@.len() && work@[j] == c by {
            let k = choose|k: Seq<char>| m@.contains_key(k) && #[trigger] m@[k].heap_ref() == Some(c);
            m.lemma_key(k);
            let idx = choose|idx: int| m.has_key_at(k, idx);
            m.lemma_entry(idx);
            assert(m.value_at(idx).heap_ref() is Some);
        }
    }
}

/// Pushes every handle that an object holds.
fn push_refs(kind: &HeapObjectKind, work: &mut Vec<usize>)
    requires
        kind.wf(),
    ensures
        final(work)@.len() >= old(work)@.len(),
        final(work)@.subrange(0, old(work)@.len() as int) == old(work)@,
        forall|j: int|
            old(work)@.len() <= j < final(work)@.len() ==> holds_ref(kind.view_of(), #[trigger] final(work)@[j]),
        forall|c: usize|
            holds_ref(kind.view_of(), c) ==> exists|j: int|
                old(work)@.len() <= j < final(work)@.len() && final(work)@[j] == c,
{
    let ghost start = work@;
    match kind {
        HeapObjectKind::Array(v) => {
            push_value_refs(v, work);
            assert forall|c: usize| holds_ref(kind.view_of(), c) implies exists|j: int|
                start.len() <= j < work@.len() && work@[j] == c by {
                assert(holds_ref(ObjectView::Array(v@), c));
            }
        },
        HeapObjectKind::Object(m) => {
            push_map_refs(m, work);
            assert forall|c: usize| holds_ref(kind.view_of(), c) implies exists|j: int|
                start.len() <= j < work@.len() && work@[j] == c by {
                assert(holds_ref(ObjectView::Object(m@), c));
            }
        },
        HeapObjectKind::Closure(c) => {
            push_map_refs(&c.env, work);
            assert forall|x: usize| holds_ref(kind.view_of(), x) implies exists|j: int|
                start.len() <= j < work@.len() && work@[j] == x by {
                assert(holds_ref(ObjectView::Object(c.env@), x));
            }
            assert forall|j: int| start.len() <= j < work@.len() implies holds_ref(kind.view_of(), #[trigger] work@[j]) by {
                assert(holds_ref(ObjectView::Object(c.env@), work@[j]));
            }
        },
    }
}

impl Heap {
    spec fn live_at(objs: Seq<Option<HeapObject>>, i: int) -> bool {
        0 <= i < objs.len() && objs[i] is Some
    }

    spec fn marked_at(objs: Seq<Option<HeapObject>>, i: int) -> bool {
        0 <= i < objs.len() && objs[i] is Some && objs[i]->0.marked
    }

    /// The slots that marking has not reached yet.
    spec fn unmarked(objs: Seq<Option<HeapObject>>) -> Set<usize> {
        Set::new(|i: usize| (i as int) < objs.len() && objs[i as int] is Some && !objs[i as int]->0.marked)
    }

    /// Once marking is closed under references, every live slot on a reference path is marked.
    proof fn lemma_marked_complete(
        v0: Map<usize, ObjectView>,
        roots: Seq<Value>,
        objs: Seq<Option<HeapObject>>,
        p: Seq<usize>,
    )
        requires
            forall|i: usize| #[trigger] v0.contains_key(i) <==> Self::live_at(objs, i as int),
            forall|c: usize|
                root_ref(roots, c) && #[trigger] v0.contains_key(c) ==> Self::marked_at(objs, c as int),
            forall|a: usize, c: usize|
                #[trigger] Self::marked_at(objs, a as int) && holds_ref(v0[a], c) && #[trigger] v0.contains_key(c)
                    ==> Self::marked_at(objs, c as int),
            is_ref_path(v0, roots, p),
            v0.contains_key(p.last()),
        ensures
            Self::marked_at(objs, p.last() as int),
        decreases p.len(),
    {
        if p.len() > 1 {
            let q = p.drop_last();
            assert forall|i: int| 0 <= i < q.len() - 1 implies v0.contains_key(#[trigger] q[i]) && holds_ref(v0[q[i]], q[i + 1]) by {
                assert(q[i] == p[i]);
                assert(q[i + 1] == p[i + 1]);
            }
            assert(q[0] == p[0]);
            assert(p[p.len() - 2] == q.last());
            assert(v0.contains_key(p[p.len() - 2]));
            Self::lemma_marked_complete(v0, roots, objs, q);
        }
    }

    /// Collects garbage: frees every object that cannot be reached from `roots` and keeps the
    /// others unchanged.
    pub fn collect_garbage(&mut self, roots: &[Value]) -> (s: HeapStats)
        requires
            old(self).wf(),
        ensures
            final(self).wf(),
            final(self).slots() == old(self).slots(),
            final(self)@ == collected(old(self)@, roots@),
            s.live_objects == final(self)@.dom().len(),
            s.freed_objects == old(self)@.dom().len() - final(self)@.dom().len(),
            final(self).free_slots() == old(self).free_slots() + newly_freed(old(self)@, final(self)@, old(self).slots()),
    {
        let ghost v0 = self@;
        let ghost objs0 = self.objects@;
        let ghost rts = roots@;

        // Mark phase: a work list of handles still to visit.
        let mut work: Vec<usize> = Vec::new();
        let mut r: usize = 0;
        while r < roots.len()
            invariant
                r <= rts.len(),
                rts == roots@,
                forall|j: int| 0 <= j < work@.len() ==> root_ref(rts, #[trigger] work@[j]),
                forall|k: int|
                    0 <= k < r && (#[trigger] rts[k]).heap_ref() is Some ==> exists|j: int|
                        0 <= j < work@.len() && work@[j] == rts[k].heap_ref()->0,
            decreases rts.len() - r,
        {
            let ghost before = work@;
            match roots[r].handle() {
                Some(h) => {
                    work.push(h);
                    assert(rts[r as int].heap_ref() == Some(h));
                    assert forall|j: int| 0 <= j < work@.len() implies root_ref(rts, #[trigger] work@[j]) by {
                        if j < before.len() {
                            assert(work@[j] == before[j]);
                        }
                    }
                    assert forall|k: int|
                        0 <= k < r + 1 && (#[trigger] rts[k]).heap_ref() is Some implies exists|j: int|
                        0 <= j < work@.len() && work@[j] == rts[k].heap_ref()->0 by {
                        if k < r {
                            let j = choose|j: int| 0 <= j < before.len() && before[j] == rts[k].heap_ref()->0;
                            assert(work@[j] == before[j]);
                        } else {
                            assert(work@[work@.len() - 1] == h);
                        }
                    }
                },
                None => {},
            }
            r = r + 1;
        }

        proof {
            assert forall|j: int| 0 <= j < work@.len() implies reachable(v0, rts, #[trigger] work@[j]) by {
                let p = seq![work@[j]];
                assert(is_ref_path(v0, rts, p));
            }
            assert(Self::unmarked(self.objects@).subset_of(v0.dom()));
            vstd::set_lib::lemma_len_subset(Self::unmarked(self.objects@), v0.dom());
        }

        while work.len() > 0
            invariant
                self.objects@.len() == objs0.len(),
                self.free_list@ == old(self).free_list@,
                v0.dom().finite(),
                forall|i: int|
                    0 <= i < objs0.len() ==> (#[trigger] self.objects@[i] is Some) == (objs0[i] is Some),
                forall|i: int|
                    0 <= i < objs0.len() && #[trigger] objs0[i] is Some ==> objs0[i]->0.kind.wf(),
                forall|i: int|
                    0 <= i < objs0.len() && #[trigger] self.objects@[i] is Some ==> self.objects@[i]->0.kind
                        == objs0[i]->0.kind,
                forall|i: usize| #[trigger] v0.contains_key(i) <==> Self::live_at(self.objects@, i as int),
                forall|i: usize| #[trigger] v0.contains_key(i) ==> v0[i] == self.objects@[i as int]->0.kind.view_of(),
                Self::unmarked(self.objects@).subset_of(v0.dom()),
                Self::unmarked(self.objects@).finite(),
                forall|i: usize| #[trigger] Self::marked_at(self.objects@, i as int) ==> reachable(v0, rts, i),
                forall|j: int| 0 <= j < work@.len() ==> reachable(v0, rts, #[trigger] work@[j]),
                forall|c: usize|
                    root_ref(rts, c) && #[trigger] v0.contains_key(c) ==> Self::marked_at(self.objects@, c as int)
                        || work@.contains(c),
                forall|a: usize, c: usize|
                    #[trigger] Self::marked_at(self.objects@, a as int) && holds_ref(v0[a], c)
                        && #[trigger] v0.contains_key(c) ==> Self::marked_at(self.objects@, c as int)
                        || work@.contains(c),
            decreases Self::unmarked(self.objects@).len(), work@.len(),
        {
            let ghost objs_before = self.objects@;
            let ghost work_before = work@;
            let ghost unmarked_before = Self::unmarked(self.objects@);
            let h = work.pop().unwrap();
            assert(work_before[work_before.len() - 1] == h);
            assert(work@ =~= work_before.drop_last());
            if h < self.objects.len() {
                let mut tmp: Option<HeapObject> = None;
                self.objects.set_and_swap(h, &mut tmp);
                match tmp {
                    Some(mut o) => {
                        if o.marked {
                            self.objects.set(h, Some(o));
                            assert(self.objects@ =~= objs_before);
                            assert(Self::unmarked(self.objects@) =~= unmarked_before);
                            proof {
                                assert forall|a: usize, c: usize|
                                    #[trigger] Self::marked_at(self.objects@, a as int) && holds_ref(v0[a], c)
                                        && #[trigger] v0.contains_key(c) implies Self::marked_at(self.objects@, c as int)
                                        || work@.contains(c) by {
                                    if !Self::marked_at(self.objects@, c as int) {
                                        assert(work_before.contains(c));
                                        let j = choose|j: int| 0 <= j < work_before.len() && work_before[j] == c;
                                        assert(j != work_before.len() - 1);
                                        assert(work@[j] == c);
                                    }
                                }
                                assert forall|c: usize|
                                    root_ref(rts, c) && #[trigger] v0.contains_key(c) implies Self::marked_at(self.objects@, c as int)
                                        || work@.contains(c) by {
                                    if !Self::marked_at(self.objects@, c as int) {
                                        assert(work_before.contains(c));
                                        let j = choose|j: int| 0 <= j < work_before.len() && work_before[j] == c;
                                        assert(j != work_before.len() - 1);
                                        assert(work@[j] == c);
                                    }
                                }
                            }
                        } else {
                            o.marked = true;
                            let ghost work_mid = work@;
                            proof {
                                assert(objs_before[h as int] is Some);
                                assert(v0.contains_key(h));
                                assert(o.kind.wf());
                            }
                            push_refs(&o.kind, &mut work);
                            self.objects.set(h, Some(o));
                            proof {
                                assert(self.objects@ =~= objs_before.update(h as int, Some(o)));
                                assert(Self::unmarked(self.objects@) =~= unmarked_before.remove(h));
                                assert(unmarked_before.contains(h));
                                // the newly marked object is reachable
                                assert(reachable(v0, rts, h));
                                let ph = choose|ph: Seq<usize>| #[trigger] is_ref_path(v0, rts, ph) && ph.last() == h;
                                assert forall|j: int| 0 <= j < work@.len() implies reachable(v0, rts, #[trigger] work@[j]) by {
                                    if j < work_mid.len() {
                                        assert(work@[j] == work_mid[j]);
                                        assert(work_mid[j] == work_before[j]);
                                    } else {
                                        let x = work@[j];
                                        assert(holds_ref(o.kind.view_of(), x));
                                        assert(v0[h] == o.kind.view_of());
                                        let px = ph.push(x);
                                        assert forall|k: int| 0 <= k < px.len() - 1 implies v0.contains_key(#[trigger] px[k]) && holds_ref(v0[px[k]], px[k + 1]) by {
                                            if k < ph.len() - 1 {
                                                assert(px[k] == ph[k]);
                                                assert(px[k + 1] == ph[k + 1]);
                                            } else {
                                                assert(px[k] == h);
                                                assert(px[k + 1] == x);
                                            }
                                        }
                                        assert(px[0] == ph[0]);
                                        assert(is_ref_path(v0, rts, px));
                                    }
                                }
                                assert forall|i: usize| #[trigger] Self::marked_at(self.objects@, i as int) implies reachable(v0, rts, i) by {
                                    if i != h {
                                        assert(Self::marked_at(objs_before, i as int));
                                    }
                                }
                                assert forall|a: usize, c: usize|
                                    #[trigger] Self::marked_at(self.objects@, a as int) && holds_ref(v0[a], c)
                                        && #[trigger] v0.contains_key(c) implies Self::marked_at(self.objects@, c as int)
                                        || work@.contains(c) by {
                                    if a == h {
                                        let j = choose|j: int| work_mid.len() <= j < work@.len() && work@[j] == c;
                                        assert(work@.contains(c));
                                    } else if !Self::marked_at(self.objects@, c as int) {
                                        assert(Self::marked_at(objs_before, a as int));
                                        assert(c != h);
                                        assert(!Self::marked_at(objs_before, c as int));
                                        assert(work_before.contains(c));
                                        let j = choose|j: int| 0 <= j < work_before.len() && work_before[j] == c;
                                        assert(j != work_before.len() - 1);
                                        assert(work@[j] == work_mid[j]);
                                        assert(work@.contains(c));
                                    }
                                }
                                assert forall|c: usize|
                                    root_ref(rts, c) && #[trigger] v0.contains_key(c) implies Self::marked_at(self.objects@, c as int)
                                        || work@.contains(c) by {
                                    if c != h && !Self::marked_at(self.objects@, c as int) {
                                        assert(!Self::marked_at(objs_before, c as int));
                                        assert(work_before.contains(c));
                                        let j = choose|j: int| 0 <= j < work_before.len() && work_before[j] == c;
                                        assert(j != work_before.len() - 1);
                                        assert(work@[j] == work_mid[j]);
                                        assert(work@.contains(c));
                                    }
                                }
                            }
                        }
                    },
                    None => {
                        self.objects.set(h, None);
                        assert(self.objects@ =~= objs_before);
                        assert(Self::unmarked(self.objects@) =~= unmarked_before);
                        proof {
                            assert forall|a: usize, c: usize|
                                #[trigger] Self::marked_at(self.objects@, a as int) && holds_ref(v0[a], c)
                                    && #[trigger] v0.contains_key(c) implies Self::marked_at(self.objects@, c as int)
                                    || work@.contains(c) by {
                                if !Self::marked_at(self.objects@, c as int) {
                                    assert(work_before.contains(c));
                                    let j = choose|j: int| 0 <= j < work_before.len() && work_before[j] == c;
                                    assert(j != work_before.len() - 1);
                                    assert(work@[j] == c);
                                }
                            }
                            assert forall|c: usize|
                                root_ref(rts, c) && #[trigger] v0.contains_key(c) implies Self::marked_at(self.objects@, c as int)
                                    || work@.contains(c) by {
                                if !Self::marked_at(self.objects@, c as int) {
                                    assert(work_before.contains(c));
                                    let j = choose|j: int| 0 <= j < work_before.len() && work_before[j] == c;
                                    assert(j != work_before.len() - 1);
                                    assert(work@[j] == c);
                                }
                            }
                        }
                    },
                }
            } else {
                proof {
                    assert forall|a: usize, c: usize|
                        #[trigger] Self::marked_at(self.objects@, a as int) && holds_ref(v0[a], c)
                            && #[trigger] v0.contains_key(c) implies Self::marked_at(self.objects@, c as int)
                            || work@.contains(c) by {
                        if !Self::marked_at(self.objects@, c as int) {
                            assert(work_before.contains(c));
                            let j = choose|j: int| 0 <= j < work_before.len() && work_before[j] == c;
                            assert(j != work_before.len() - 1);
                            assert(work@[j] == c);
                        }
                    }
                    assert forall|c: usize|
                        root_ref(rts, c) && #[trigger] v0.contains_key(c) implies Self::marked_at(self.objects@, c as int)
                            || work@.contains(c) by {
                        if !Self::marked_at(self.objects@, c as int) {
                            assert(work_before.contains(c));
                            let j = choose|j: int| 0 <= j < work_before.len() && work_before[j] == c;
                            assert(j != work_before.len() - 1);
                            assert(work@[j] == c);
                        }
                    }
                }
            }
        }

        let ghost marked_objs = self.objects@;
        proof {
            assert forall|h: usize| #[trigger] v0.contains_key(h) implies (Self::marked_at(marked_objs, h as int)
                <==> reachable(v0, rts, h)) by {
                if reachable(v0, rts, h) {
                    let p = choose|p: Seq<usize>| #[trigger] is_ref_path(v0, rts, p) && p.last() == h;
                    Self::lemma_marked_complete(v0, rts, marked_objs, p);
                }
            }
        }

        // Sweep phase.
        assert(self@ =~= v0);
        let mut freed: usize = 0;
        let mut i: usize = 0;
        assert(self.free_list@ =~= old(self).free_list@ + newly_freed(v0, collected(v0, rts), 0));
        while i < self.objects.len()
            invariant
                self.free_list@ == old(self).free_list@ + newly_freed(v0, collected(v0, rts), i as nat),
                forall|h: usize| #[trigger] v0.contains_key(h) ==> (Self::marked_at(marked_objs, h as int)
                    <==> reachable(v0, rts, h)),
                self.objects@.len() == objs0.len(),
                marked_objs.len() == objs0.len(),
                i <= objs0.len(),
                v0.dom().finite(),
                forall|j: int| i <= j < objs0.len() ==> #[trigger] self.objects@[j] == marked_objs[j],
                forall|j: int|
                    0 <= j < i ==> (#[trigger] self.objects@[j] is Some <==> Self::marked_at(marked_objs, j)),
                forall|j: int|
                    0 <= j < i && #[trigger] self.objects@[j] is Some ==> !self.objects@[j]->0.marked
                        && self.objects@[j]->0.kind == marked_objs[j]->0.kind,
                forall|j: int| 0 <= j < objs0.len() && #[trigger] marked_objs[j] is Some ==> marked_objs[j]->0.kind == objs0[j]->0.kind,
                forall|j: int| 0 <= j < objs0.len() ==> (#[trigger] marked_objs[j] is Some) == (objs0[j] is Some),
                forall|k: int|
                    0 <= k < self.free_list@.len() ==> (#[trigger] self.free_list@[k]) < objs0.len()
                        && self.objects@[self.free_list@[k] as int] is None
                        && (self.free_list@[k] < i || objs0[self.free_list@[k] as int] is None),
                forall|a: int, b: int|
                    0 <= a < self.free_list@.len() && 0 <= b < self.free_list@.len() && #[trigger] self.free_list@[a]
                        == #[trigger] self.free_list@[b] ==> a == b,
                self@.dom().finite(),
                self.free_list@.len() + self@.dom().len() == objs0.len(),
                freed + self@.dom().len() == v0.dom().len(),
                v0.dom().len() <= objs0.len(),
                forall|j: usize| #[trigger] v0.contains_key(j) <==> Self::live_at(objs0, j as int),
            decreases objs0.len() - i,
        {
            let ghost objs_before = self.objects@;
            let ghost view_before = self@;
            let ghost free_before = self.free_list@;
            let mut tmp: Option<HeapObject> = None;
            self.objects.set_and_swap(i, &mut tmp);
            assert(tmp == objs_before[i as int]);
            match tmp {
                Some(mut o) => {
                    if o.marked {
                        assert(Self::marked_at(marked_objs, i as int));
                        o.marked = false;
                        self.objects.set(i, Some(o));
                        assert(self@ =~= view_before);
                    } else {
                        assert(!Self::marked_at(marked_objs, i as int));
                        proof {
                            assert(view_before.contains_key(i));
                            assert(self@ =~= view_before.remove(i));
                            assert(self@.dom().len() == view_before.dom().len() - 1);
                            assert forall|k: int| 0 <= k < free_before.len() implies free_before[k] != i by {
                                assert(objs0[i as int] is Some);
                            }
                        }
                        self.free_list.push(i);
                        freed = freed + 1;
                        proof {
                            assert forall|a: int, b: int|
                                0 <= a < self.free_list@.len() && 0 <= b < self.free_list@.len()
                                    && #[trigger] self.free_list@[a] == #[trigger] self.free_list@[b] implies a == b by {
                                if a < free_before.len() && b < free_before.len() {
                                    assert(free_before[a] == self.free_list@[a]);
                                    assert(free_before[b] == self.free_list@[b]);
                                } else if a < free_before.len() {
                                    assert(free_before[a] == self.free_list@[a]);
                                } else if b < free_before.len() {
                                    assert(free_before[b] == self.free_list@[b]);
                                }
                            }
                            assert forall|k: int|
                                0 <= k < self.free_list@.len() implies (#[trigger] self.free_list@[k]) < objs0.len()
                                    && self.objects@[self.free_list@[k] as int] is None
                                    && (self.free_list@[k] < i + 1 || objs0[self.free_list@[k] as int] is None) by {
                                if k < free_before.len() {
                                    assert(free_before[k] == self.free_list@[k]);
                                }
                            }
                        }
                    }
                },
                None => {
                    self.objects.set(i, None);
                    assert(self@ =~= view_before);
                    assert(!Self::marked_at(marked_objs, i as int));
                },
            }
            proof {
                assert forall|j: int| 0 <= j < i + 1 implies (#[trigger] self.objects@[j] is Some <==> Self::marked_at(marked_objs, j)) by {
                    if j < i {
                        assert(self.objects@[j] == objs_before[j]);
                    }
                }
                assert forall|k: int|
                    0 <= k < self.free_list@.len() implies (#[trigger] self.free_list@[k]) < objs0.len()
                        && self.objects@[self.free_list@[k] as int] is None
                        && (self.free_list@[k] < i + 1 || objs0[self.free_list@[k] as int] is None) by {
                    if k < free_before.len() {
                        assert(free_before[k] == self.free_list@[k]);
                        assert(free_before[k] != i || objs_before[i as int] is None);
                    }
                }
            }
            proof {
                let c = collected(v0, rts);
                let k = i as usize;
                assert(newly_freed(v0, c, (i + 1) as nat) == newly_freed(v0, c, i as nat) + if v0.contains_key(k)
                    && !c.contains_key(k) {
                    seq![k]
                } else {
                    Seq::<usize>::empty()
                });
                if v0.contains_key(k) && !c.contains_key(k) {
                    assert(self.free_list@ =~= old(self).free_list@ + newly_freed(v0, c, (i + 1) as nat));
                } else {
                    assert(self.free_list@ =~= old(self).free_list@ + newly_freed(v0, c, (i + 1) as nat));
                }
            }
            i = i + 1;
        }

        proof {
            assert forall|h: usize| #[trigger] self@.contains_key(h) == collected(v0, rts).contains_key(h) by {
                if v0.contains_key(h) {
                    assert(objs0[h as int] is Some);
                }
            }
            assert forall|h: usize| #[trigger] self@.contains_key(h) implies self@[h] == collected(v0, rts)[h] by {
                assert(v0.contains_key(h));
            }
            assert(self@ =~= collected(v0, rts));
            assert forall|ii: int|
                0 <= ii < self.objects@.len() && (#[trigger] self.objects@[ii]) is Some implies !self.objects@[ii]->0.marked
                    && self.objects@[ii]->0.kind.wf() by {
                assert(objs0[ii] is Some);
            }
        }
        let live_objects = self.count_live();
        HeapStats { live_objects, freed_objects: freed }
    }
}

/// A copy of an environment.
pub fn copy_env(m: &NameMap<Value>) -> (r: NameMap<Value>)
    requires
        m.wf(),
    ensures
        r.wf(),
        r@ == m@,
        r.entries@.len() == m.entries@.len(),
        forall|i: int| 0 <= i < m.entries@.len() ==> r.key_at(i) == m.key_at(i) && r.value_at(i) == m.value_at(i),
{
    let mut entries: Vec<(String, Value)> = Vec::new();
    let mut i: usize = 0;
    while i < m.entries.len()
        invariant
            i <= m.entries@.len(),
            entries@.len() == i,
            forall|j: int| 0 <= j < i ==> entries@[j].0@ == m.key_at(j) && entries@[j].1 == m.value_at(j),
        decreases m.entries@.len() - i,
    {
        let k = m.entries[i].0.clone();
        let v = m.entries[i].1.copy();
        entries.push((k, v));
        i = i + 1;
    }
    let r = NameMap { entries };
    proof {
        assert forall|a: int, b: int|
            0 <= a < r.entries@.len() && 0 <= b < r.entries@.len() && #[trigger] r.key_at(a)
                == #[trigger] r.key_at(b) implies a == b by {
            assert(m.key_at(a) == m.key_at(b));
        }
        assert forall|k: Seq<char>| #[trigger] r@.contains_key(k) == m@.contains_key(k) by {
            if r@.contains_key(k) {
                let j = choose|j: int| r.has_key_at(k, j);
                assert(m.has_key_at(k, j));
            }
            if m@.contains_key(k) {
                let j = choose|j: int| m.has_key_at(k, j);
                assert(r.has_key_at(k, j));
            }
        }
        assert forall|k: Seq<char>| #[trigger] r@.contains_key(k) implies r@[k] == m@[k] by {
            let j = choose|j: int| r.has_key_at(k, j);
            r.lemma_entry(j);
            assert(m.has_key_at(k, j));
            m.lemma_entry(j);
        }
        assert(r@ =~= m@);
    }
    r
}

} // verus!
