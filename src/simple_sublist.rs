//! The subscription registry: which subscriptions a publish to a subject
//! reaches. Subjects are matched exactly, byte for byte.
use vstd::prelude::*;
use vstd::slice::slice_to_vec;

use crate::errors::{NError, ERROR_REGISTRY_FULL};

verus! {

/// The registry's view of a subscription. `id` is its identity: two
/// subscriptions with equal subject, queue and sid are still distinct.
pub struct SubView {
    pub id: u64,
    pub subject: Seq<u8>,
    pub queue: Option<Seq<u8>>,
    pub sid: Seq<u8>,
}

/// Whether `u` is the subscription `v`: the same identity at the same place
/// (subject and queue group) in the registry.
pub open spec fn same_sub(u: SubView, v: SubView) -> bool {
    u.id == v.id && u.subject == v.subject && u.queue == v.queue
}

pub open spec fn opt_bytes(q: Option<Vec<u8>>) -> Option<Seq<u8>> {
    match q {
        Some(v) => Some(v@),
        None => None,
    }
}

/// One client's interest in a subject, optionally as a member of a queue
/// group, with the handle of the client's delivery sink.
pub struct SubScription<S> {
    pub msg_sender: S,
    pub subject: Vec<u8>,
    pub queue: Option<Vec<u8>>,
    pub sid: Vec<u8>,
    id: u64,
}

impl<S> View for SubScription<S> {
    type V = SubView;

    closed spec fn view(&self) -> SubView {
        SubView { id: self.id, subject: self.subject@, queue: opt_bytes(self.queue), sid: self.sid@ }
    }
}

fn copy_opt(q: &Option<Vec<u8>>) -> (r: Option<Vec<u8>>)
    ensures
        opt_bytes(r) == opt_bytes(*q),
{
    match q {
        Some(v) => Some(slice_to_vec(v.as_slice())),
        None => None,
    }
}

impl<S> SubScription<S> {
    fn new(id: u64, msg_sender: S, subject: &[u8], queue: Option<&[u8]>, sid: &[u8]) -> (r: Self)
        ensures
            r@ == (SubView {
                id,
                subject: subject@,
                queue: match queue {
                    Some(q) => Some(q@),
                    None => None,
                },
                sid: sid@,
            }),
    {
        let queue = match queue {
            Some(q) => Some(slice_to_vec(q)),
            None => None,
        };
        Self { msg_sender, subject: slice_to_vec(subject), queue, sid: slice_to_vec(sid), id }
    }

    pub fn id(&self) -> (r: u64)
        ensures
            r == self@.id,
    {
        self.id
    }
}

impl<S: Clone> SubScription<S> {
    /// A second handle on the same subscription (same identity, same sink).
    pub fn duplicate(&self) -> (r: Self)
        ensures
            r@ == self@,
    {
        Self {
            msg_sender: self.msg_sender.clone(),
            subject: slice_to_vec(self.subject.as_slice()),
            queue: copy_opt(&self.queue),
            sid: slice_to_vec(self.sid.as_slice()),
            id: self.id,
        }
    }
}

/// The subscribers a publish to one subject reaches: every plain subscriber,
/// and the members of each queue group (one of each group is to receive it).
pub struct SubResult<S> {
    pub ppubs: Vec<SubScription<S>>,
    pub qpubs: Vec<Vec<SubScription<S>>>,
}

impl<S> SubResult<S> {
    pub fn new() -> (r: Self)
        ensures
            r.ppubs@.len() == 0,
            r.qpubs@.len() == 0,
    {
        Self { ppubs: Vec::new(), qpubs: Vec::new() }
    }

    pub fn is_empty(&self) -> (r: bool)
        ensures
            r == (self.ppubs@.len() == 0 && self.qpubs@.len() == 0),
    {
        self.ppubs.len() == 0 && self.qpubs.len() == 0
    }
}

fn bytes_eq(a: &[u8], b: &[u8]) -> (r: bool)
    ensures
        r == (a@ == b@),
{
    if a.len() != b.len() {
        return false;
    }
    let mut i: usize = 0;
    while i < a.len()
        invariant
            a@.len() == b@.len(),
            i <= a@.len(),
            forall|k: int| 0 <= k < i ==> a@[k] == b@[k],
        decreases a@.len() - i,
    {
        if a[i] != b[i] {
            return false;
        }
        i = i + 1;
    }
    proof {
        assert(a@ =~= b@);
    }
    true
}

fn opt_bytes_eq(a: &Option<Vec<u8>>, b: &Option<Vec<u8>>) -> (r: bool)
    ensures
        r == (opt_bytes(*a) == opt_bytes(*b)),
{
    match (a, b) {
        (Some(x), Some(y)) => bytes_eq(x.as_slice(), y.as_slice()),
        (None, None) => true,
        _ => false,
    }
}

fn find_member<S>(members: &Vec<SubScription<S>>, id: u64) -> (r: Option<usize>)
    ensures
        match r {
            Some(j) => j < members@.len() && members@[j as int]@.id == id,
            None => forall|j: int| 0 <= j < members@.len() ==> (#[trigger] members@[j])@.id != id,
        },
{
    let mut j: usize = 0;
    while j < members.len()
        invariant
            j <= members@.len(),
            forall|k: int| 0 <= k < j ==> (#[trigger] members@[k])@.id != id,
        decreases members@.len() - j,
    {
        if members[j].id() == id {
            return Some(j);
        }
        j = j + 1;
    }
    None
}

fn copy_members<S: Clone>(members: &Vec<SubScription<S>>) -> (r: Vec<SubScription<S>>)
    ensures
        r@.len() == members@.len(),
        forall|k: int| 0 <= k < members@.len() ==> (#[trigger] r@[k])@ == members@[k]@,
{
    let mut r: Vec<SubScription<S>> = Vec::new();
    let mut j: usize = 0;
    while j < members.len()
        invariant
            j <= members@.len(),
            r@.len() == j,
            forall|k: int| 0 <= k < j ==> (#[trigger] r@[k])@ == members@[k]@,
        decreases members@.len() - j,
    {
        r.push(members[j].duplicate());
        j = j + 1;
    }
    r
}

/// The subscriptions of one subject and queue group (`None`: the plain
/// subscribers of the subject).
struct Entry<S> {
    subject: Vec<u8>,
    queue: Option<Vec<u8>>,
    members: Vec<SubScription<S>>,
}

impl<S> Entry<S> {
    spec fn wf(&self) -> bool {
        &&& self.members@.len() > 0
        &&& forall|j: int|
            0 <= j < self.members@.len() ==> {
                &&& (#[trigger] self.members@[j])@.subject == self.subject@
                &&& self.members@[j]@.queue == opt_bytes(self.queue)
            }
        &&& forall|j: int, k: int|
            0 <= j < self.members@.len() && 0 <= k < self.members@.len() && j != k
                ==> (#[trigger] self.members@[j])@.id != (#[trigger] self.members@[k])@.id
    }
}

/// The registry: an index from subject and queue group to the set of their
/// live subscriptions. An entry exists only while it holds a subscription.
pub struct SimpleSubList<S> {
    entries: Vec<Entry<S>>,
    next_id: u64,
}

impl<S> SimpleSubList<S> {
    spec fn has(&self, v: SubView) -> bool {
        exists|i: int, j: int|
            0 <= i < self.entries@.len() && 0 <= j < self.entries@[i].members@.len() && (
            #[trigger] self.entries@[i].members@[j])@ == v
    }

    /// The live subscriptions.
    pub closed spec fn view(&self) -> Set<SubView> {
        Set::new(|v: SubView| self.has(v))
    }

    /// Whether the index holds an entry for this subject and queue group.
    pub closed spec fn has_entry(&self, subject: Seq<u8>, queue: Option<Seq<u8>>) -> bool {
        exists|i: int|
            0 <= i < self.entries@.len() && (#[trigger] self.entries@[i]).subject@ == subject
                && opt_bytes(self.entries@[i].queue) == queue
    }

    pub closed spec fn wf(&self) -> bool {
        &&& forall|i: int| 0 <= i < self.entries@.len() ==> (#[trigger] self.entries@[i]).wf()
        &&& forall|i: int, k: int|
            0 <= i < self.entries@.len() && 0 <= k < self.entries@.len() && i != k ==> !(
            (#[trigger] self.entries@[i]).subject@ == (#[trigger] self.entries@[k]).subject@
                && opt_bytes(self.entries@[i].queue) == opt_bytes(self.entries@[k].queue))
        &&& forall|v: SubView| #[trigger] self.view().contains(v) ==> v.id < self.next_id || self.next_id == u64::MAX
    }

    /// The identity the next subscription made here will get.
    pub closed spec fn next_id(&self) -> u64 {
        self.next_id
    }

    pub fn new() -> (r: Self)
        ensures
            r.wf(),
            r.view() == Set::<SubView>::empty(),
    {
        let r = Self { entries: Vec::new(), next_id: 0 };
        proof {
            assert(r.view() =~= Set::<SubView>::empty());
        }
        r
    }

    fn find_entry(&self, subject: &[u8], queue: &Option<Vec<u8>>) -> (r: Option<usize>)
        ensures
            match r {
                Some(i) => i < self.entries@.len() && self.entries@[i as int].subject@ == subject@
                    && opt_bytes(self.entries@[i as int].queue) == opt_bytes(*queue),
                None => forall|i: int|
                    0 <= i < self.entries@.len() ==> !((#[trigger] self.entries@[i]).subject@ == subject@
                        && opt_bytes(self.entries@[i].queue) == opt_bytes(*queue)),
            },
    {
        let mut i: usize = 0;
        while i < self.entries.len()
            invariant
                i <= self.entries@.len(),
                forall|k: int|
                    0 <= k < i ==> !((#[trigger] self.entries@[k]).subject@ == subject@ && opt_bytes(
                        self.entries@[k].queue,
                    ) == opt_bytes(*queue)),
            decreases self.entries@.len() - i,
        {
            if bytes_eq(self.entries[i].subject.as_slice(), subject) && opt_bytes_eq(
                &self.entries[i].queue,
                queue,
            ) {
                return Some(i);
            }
            i = i + 1;
        }
        None
    }

    /// Makes a subscription with a fresh identity; fails only when the
    /// identities are used up.
    pub fn new_subscription(&mut self, msg_sender: S, subject: &[u8], queue: Option<&[u8]>, sid: &[u8]) -> (r:
        Result<SubScription<S>, NError>)
        requires
            old(self).wf(),
        ensures
            final(self).wf(),
            final(self).view() == old(self).view(),
            r is Ok <==> old(self).next_id() < u64::MAX,
            r is Err ==> r->Err_0.err_code == ERROR_REGISTRY_FULL,
            r is Ok ==> r->Ok_0@ == (SubView {
                id: old(self).next_id(),
                subject: subject@,
                queue: match queue {
                    Some(q) => Some(q@),
                    None => None,
                },
                sid: sid@,
            }),
            r is Ok ==> forall|v: SubView| #[trigger] final(self).view().contains(v) ==> v.id != r->Ok_0@.id,
            r is Ok ==> final(self).next_id() > r->Ok_0@.id,
    {
        if self.next_id == u64::MAX {
            return Err(NError::new(ERROR_REGISTRY_FULL));
        }
        let id = self.next_id;
        self.next_id = self.next_id + 1;
        proof {
            assert(self.view() =~= old(self).view());
        }
        Ok(SubScription::new(id, msg_sender, subject, queue, sid))
    }

    /// Adds `sub` under its subject (and queue group), creating the entry if
    /// needed. A subscription already there is left as it is.
    pub fn insert(&mut self, sub: SubScription<S>) -> (r: Result<(), NError>)
        requires
            old(self).wf(),
        ensures
            final(self).wf(),
            r is Ok,
            final(self).view() == if exists|u: SubView| #[trigger]
                old(self).view().contains(u) && same_sub(u, sub@) {
                old(self).view()
            } else {
                old(self).view().insert(sub@)
            },
    {
        let ghost v = sub@;
        let ghost old_view = self.view();
        if sub.id >= self.next_id {
            self.next_id = if sub.id < u64::MAX {
                sub.id + 1
            } else {
                u64::MAX
            };
        }
        proof {
            assert(self.view() =~= old_view);
        }
        let ghost mid = *self;
        match self.find_entry(sub.subject.as_slice(), &sub.queue) {
            Some(i) => {
                match find_member(&self.entries[i].members, sub.id) {
                    Some(j) => {
                        proof {
                            let u = self.entries@[i as int].members@[j as int]@;
                            assert(self.has(u));
                            assert(old_view.contains(u) && same_sub(u, v));
                        }
                        return Ok(());
                    },
                    None => {
                        self.entries[i].members.push(sub);
                        proof {
                            self.lemma_insert_at(mid, i as int, v);
                        }
                    },
                }
            },
            None => {
                let subject = slice_to_vec(sub.subject.as_slice());
                let queue = copy_opt(&sub.queue);
                let members = vec![sub];
                self.entries.push(Entry { subject, queue, members });
                proof {
                    self.lemma_insert_new(mid, v);
                }
            },
        }
        Ok(())
    }

    proof fn lemma_insert_at(&self, mid: Self, i: int, v: SubView)
        requires
            mid.wf(),
            0 <= i < mid.entries@.len(),
            mid.entries@[i].subject@ == v.subject,
            opt_bytes(mid.entries@[i].queue) == v.queue,
            forall|j: int| 0 <= j < mid.entries@[i].members@.len() ==> (#[trigger] mid.entries@[i].members@[j])@.id != v.id,
            self.next_id == mid.next_id,
            v.id < self.next_id || self.next_id == u64::MAX,
            self.entries@.len() == mid.entries@.len(),
            forall|k: int| 0 <= k < mid.entries@.len() && k != i ==> #[trigger] self.entries@[k] == mid.entries@[k],
            self.entries@[i].subject == mid.entries@[i].subject,
            self.entries@[i].queue == mid.entries@[i].queue,
            self.entries@[i].members@.len() == mid.entries@[i].members@.len() + 1,
            forall|j: int| 0 <= j < mid.entries@[i].members@.len() ==> (#[trigger] self.entries@[i].members@[j]) == mid.entries@[i].members@[j],
            self.entries@[i].members@.last()@ == v,
        ensures
            self.wf(),
            !(exists|u: SubView| #[trigger] mid.view().contains(u) && same_sub(u, v)),
            self.view() == mid.view().insert(v),
    {
        let n = mid.entries@[i].members@.len() as int;
        assert forall|u: SubView| #[trigger] mid.view().contains(u) implies !same_sub(u, v) by {
            assert(mid.has(u));
            let (a, b) = choose|a: int, b: int|
                0 <= a < mid.entries@.len() && 0 <= b < mid.entries@[a].members@.len() && (
                #[trigger] mid.entries@[a].members@[b])@ == u;
            assert(mid.entries@[a].wf());
            if same_sub(u, v) {
                if a != i {
                    assert(!(mid.entries@[a].subject@ == mid.entries@[i].subject@ && opt_bytes(mid.entries@[a].queue) == opt_bytes(mid.entries@[i].queue)));
                }
                assert(mid.entries@[i].members@[b]@.id != v.id);
            }
        }
        assert forall|u: SubView| self.has(u) <==> mid.has(u) || u == v by {
            if self.has(u) {
                let (a, b) = choose|a: int, b: int|
                    0 <= a < self.entries@.len() && 0 <= b < self.entries@[a].members@.len() && (
                    #[trigger] self.entries@[a].members@[b])@ == u;
                if a != i || b < n {
                    assert(mid.entries@[a].members@[b]@ == u);
                }
            }
            if mid.has(u) {
                let (a, b) = choose|a: int, b: int|
                    0 <= a < mid.entries@.len() && 0 <= b < mid.entries@[a].members@.len() && (
                    #[trigger] mid.entries@[a].members@[b])@ == u;
                assert(self.entries@[a].members@[b]@ == u);
            }
            if u == v {
                assert(self.entries@[i].members@[n]@ == u);
            }
        }
        assert(self.view() =~= mid.view().insert(v));
        assert forall|k: int| 0 <= k < self.entries@.len() implies (#[trigger] self.entries@[k]).wf() by {
            assert(mid.entries@[k].wf());
            if k == i {
                let e = self.entries@[i];
                assert forall|j: int, l: int|
                    0 <= j < e.members@.len() && 0 <= l < e.members@.len() && j != l
                    implies (#[trigger] e.members@[j])@.id != (#[trigger] e.members@[l])@.id by {
                    if j < n && l < n {
                        assert(mid.entries@[i].members@[j] == e.members@[j]);
                        assert(mid.entries@[i].members@[l] == e.members@[l]);
                    } else if j < n {
                        assert(mid.entries@[i].members@[j] == e.members@[j]);
                    } else {
                        assert(mid.entries@[i].members@[l] == e.members@[l]);
                    }
                }
                assert forall|j: int| 0 <= j < e.members@.len() implies {
                    &&& (#[trigger] e.members@[j])@.subject == e.subject@
                    &&& e.members@[j]@.queue == opt_bytes(e.queue)
                } by {
                    if j < n {
                        assert(mid.entries@[i].members@[j] == e.members@[j]);
                    }
                }
            }
        }
        assert forall|u: SubView| #[trigger] self.view().contains(u) implies u.id < self.next_id || self.next_id == u64::MAX by {
            if u != v {
                assert(mid.view().contains(u));
            }
        }
    }

    proof fn lemma_insert_new(&self, mid: Self, v: SubView)
        requires
            mid.wf(),
            forall|i: int| 0 <= i < mid.entries@.len() ==> !((#[trigger] mid.entries@[i]).subject@ == v.subject
                && opt_bytes(mid.entries@[i].queue) == v.queue),
            self.next_id == mid.next_id,
            v.id < self.next_id || self.next_id == u64::MAX,
            self.entries@ == mid.entries@.push(self.entries@.last()),
            self.entries@.last().subject@ == v.subject,
            opt_bytes(self.entries@.last().queue) == v.queue,
            self.entries@.last().members@.len() == 1,
            self.entries@.last().members@[0]@ == v,
        ensures
            self.wf(),
            !(exists|u: SubView| #[trigger] mid.view().contains(u) && same_sub(u, v)),
            self.view() == mid.view().insert(v),
    {
        let n = mid.entries@.len() as int;
        assert forall|u: SubView| #[trigger] mid.view().contains(u) implies !same_sub(u, v) by {
            assert(mid.has(u));
            let (a, b) = choose|a: int, b: int|
                0 <= a < mid.entries@.len() && 0 <= b < mid.entries@[a].members@.len() && (
                #[trigger] mid.entries@[a].members@[b])@ == u;
            assert(mid.entries@[a].wf());
        }
        assert forall|u: SubView| self.has(u) <==> mid.has(u) || u == v by {
            if self.has(u) {
                let (a, b) = choose|a: int, b: int|
                    0 <= a < self.entries@.len() && 0 <= b < self.entries@[a].members@.len() && (
                    #[trigger] self.entries@[a].members@[b])@ == u;
                if a < n {
                    assert(mid.entries@[a].members@[b]@ == u);
                }
            }
            if mid.has(u) {
                let (a, b) = choose|a: int, b: int|
                    0 <= a < mid.entries@.len() && 0 <= b < mid.entries@[a].members@.len() && (
                    #[trigger] mid.entries@[a].members@[b])@ == u;
                assert(self.entries@[a].members@[b]@ == u);
            }
            if u == v {
                assert(self.entries@[n].members@[0]@ == u);
            }
        }
        assert(self.view() =~= mid.view().insert(v));
        assert forall|k: int| 0 <= k < self.entries@.len() implies (#[trigger] self.entries@[k]).wf() by {
            if k < n {
                assert(mid.entries@[k].wf());
            }
        }
        assert forall|u: SubView| #[trigger] self.view().contains(u) implies u.id < self.next_id || self.next_id == u64::MAX by {
            if u != v {
                assert(mid.view().contains(u));
            }
        }
    }

    /// Removes the subscription `sub` (by identity) if it is there; an entry
    /// left empty is dropped from the index.
    pub fn remove(&mut self, sub: &SubScription<S>) -> (r: Result<(), NError>)
        requires
            old(self).wf(),
        ensures
            final(self).wf(),
            r is Ok,
            final(self).view() == old(self).view().filter(|u: SubView| !same_sub(u, sub@)),
            final(self).next_id() == old(self).next_id(),
    {
        let ghost v = sub@;
        let ghost mid = *self;
        match self.find_entry(sub.subject.as_slice(), &sub.queue) {
            None => {
                proof {
                    self.lemma_absent(v, -1);
                }
            },
            Some(i) => match find_member(&self.entries[i].members, sub.id) {
                None => {
                    proof {
                        self.lemma_absent(v, i as int);
                    }
                },
                Some(j) => {
                    proof {
                        mid.lemma_only_at(v, i as int, j as int);
                    }
                    let _ = self.entries[i].members.remove(j);
                    if self.entries[i].members.len() == 0 {
                        let ghost mid2 = self.entries@;
                        let _ = self.entries.remove(i);
                        proof {
                            assert(self.entries@ =~= mid.entries@.remove(i as int)) by {
                                assert(self.entries@ == mid2.remove(i as int));
                            }
                            self.lemma_removed_entry(mid, i as int, j as int, v);
                        }
                    } else {
                        proof {
                            self.lemma_removed_member(mid, i as int, j as int, v);
                        }
                    }
                },
            },
        }
        Ok(())
    }

    /// No live subscription is `v` when its entry is missing (`i < 0`) or
    /// holds no member with its identity.
    proof fn lemma_absent(&self, v: SubView, i: int)
        requires
            self.wf(),
            i < 0 ==> forall|k: int| 0 <= k < self.entries@.len() ==> !((#[trigger] self.entries@[k]).subject@ == v.subject
                && opt_bytes(self.entries@[k].queue) == v.queue),
            i >= 0 ==> {
                &&& i < self.entries@.len()
                &&& self.entries@[i].subject@ == v.subject
                &&& opt_bytes(self.entries@[i].queue) == v.queue
                &&& forall|j: int| 0 <= j < self.entries@[i].members@.len() ==> (#[trigger] self.entries@[i].members@[j])@.id != v.id
            },
        ensures
            self.view().filter(|u: SubView| !same_sub(u, v)) == self.view(),
    {
        assert forall|u: SubView| #[trigger] self.view().contains(u) implies !same_sub(u, v) by {
            assert(self.has(u));
            let (a, b) = choose|a: int, b: int|
                0 <= a < self.entries@.len() && 0 <= b < self.entries@[a].members@.len() && (
                #[trigger] self.entries@[a].members@[b])@ == u;
            assert(self.entries@[a].wf());
            if same_sub(u, v) && i >= 0 && a != i {
                assert(!(self.entries@[a].subject@ == self.entries@[i].subject@ && opt_bytes(self.entries@[a].queue) == opt_bytes(self.entries@[i].queue)));
            }
        }
        assert(self.view().filter(|u: SubView| !same_sub(u, v)) =~= self.view());
    }

    /// The member at `(i, j)` is the only live subscription that is `v`.
    proof fn lemma_only_at(&self, v: SubView, i: int, j: int)
        requires
            self.wf(),
            0 <= i < self.entries@.len(),
            0 <= j < self.entries@[i].members@.len(),
            self.entries@[i].subject@ == v.subject,
            opt_bytes(self.entries@[i].queue) == v.queue,
            self.entries@[i].members@[j]@.id == v.id,
        ensures
            forall|a: int, b: int|
                0 <= a < self.entries@.len() && 0 <= b < self.entries@[a].members@.len() && same_sub(
                    (#[trigger] self.entries@[a].members@[b])@,
                    v,
                ) ==> a == i && b == j,
    {
        assert forall|a: int, b: int|
            0 <= a < self.entries@.len() && 0 <= b < self.entries@[a].members@.len() && same_sub(
                (#[trigger] self.entries@[a].members@[b])@,
                v,
            ) implies a == i && b == j by {
            assert(self.entries@[a].wf());
            assert(self.entries@[i].wf());
            if a != i {
                assert(!(self.entries@[a].subject@ == self.entries@[i].subject@ && opt_bytes(self.entries@[a].queue) == opt_bytes(self.entries@[i].queue)));
            } else if b != j {
                assert(self.entries@[i].members@[b]@.id != self.entries@[i].members@[j]@.id);
            }
        }
    }

    proof fn lemma_removed_member(&self, mid: Self, i: int, j: int, v: SubView)
        requires
            mid.wf(),
            0 <= i < mid.entries@.len(),
            0 <= j < mid.entries@[i].members@.len(),
            same_sub(mid.entries@[i].members@[j]@, v),
            forall|a: int, b: int|
                0 <= a < mid.entries@.len() && 0 <= b < mid.entries@[a].members@.len() && same_sub(
                    (#[trigger] mid.entries@[a].members@[b])@,
                    v,
                ) ==> a == i && b == j,
            self.next_id == mid.next_id,
            self.entries@.len() == mid.entries@.len(),
            forall|k: int| 0 <= k < mid.entries@.len() && k != i ==> #[trigger] self.entries@[k] == mid.entries@[k],
            self.entries@[i].subject == mid.entries@[i].subject,
            self.entries@[i].queue == mid.entries@[i].queue,
            self.entries@[i].members@ == mid.entries@[i].members@.remove(j),
            self.entries@[i].members@.len() > 0,
        ensures
            self.wf(),
            self.view() == mid.view().filter(|u: SubView| !same_sub(u, v)),
    {
        let ms = mid.entries@[i].members@;
        assert forall|u: SubView| self.has(u) <==> mid.has(u) && !same_sub(u, v) by {
            if self.has(u) {
                let (a, b) = choose|a: int, b: int|
                    0 <= a < self.entries@.len() && 0 <= b < self.entries@[a].members@.len() && (
                    #[trigger] self.entries@[a].members@[b])@ == u;
                if a != i {
                    assert(mid.entries@[a].members@[b]@ == u);
                } else if b < j {
                    assert(mid.entries@[i].members@[b]@ == u);
                } else {
                    assert(mid.entries@[i].members@[b + 1]@ == u);
                }
            }
            if mid.has(u) && !same_sub(u, v) {
                let (a, b) = choose|a: int, b: int|
                    0 <= a < mid.entries@.len() && 0 <= b < mid.entries@[a].members@.len() && (
                    #[trigger] mid.entries@[a].members@[b])@ == u;
                if a != i {
                    assert(self.entries@[a].members@[b]@ == u);
                } else if b < j {
                    assert(self.entries@[i].members@[b]@ == u);
                } else {
                    assert(b != j);
                    assert(self.entries@[i].members@[b - 1]@ == u);
                }
            }
        }
        assert(self.view() =~= mid.view().filter(|u: SubView| !same_sub(u, v)));
        assert forall|k: int| 0 <= k < self.entries@.len() implies (#[trigger] self.entries@[k]).wf() by {
            assert(mid.entries@[k].wf());
            if k == i {
                let e = self.entries@[i];
                assert forall|x: int, y: int|
                    0 <= x < e.members@.len() && 0 <= y < e.members@.len() && x != y
                    implies (#[trigger] e.members@[x])@.id != (#[trigger] e.members@[y])@.id by {
                    let x1 = if x < j { x } else { x + 1 };
                    let y1 = if y < j { y } else { y + 1 };
                    assert(e.members@[x] == ms[x1]);
                    assert(e.members@[y] == ms[y1]);
                }
                assert forall|x: int| 0 <= x < e.members@.len() implies {
                    &&& (#[trigger] e.members@[x])@.subject == e.subject@
                    &&& e.members@[x]@.queue == opt_bytes(e.queue)
                } by {
                    let x1 = if x < j { x } else { x + 1 };
                    assert(e.members@[x] == ms[x1]);
                }
            }
        }
        assert forall|u: SubView| #[trigger] self.view().contains(u) implies u.id < self.next_id || self.next_id == u64::MAX by {
            assert(mid.view().contains(u));
        }
    }

    proof fn lemma_removed_entry(&self, mid: Self, i: int, j: int, v: SubView)
        requires
            mid.wf(),
            0 <= i < mid.entries@.len(),
            mid.entries@[i].members@.len() == 1,
            j == 0,
            same_sub(mid.entries@[i].members@[j]@, v),
            forall|a: int, b: int|
                0 <= a < mid.entries@.len() && 0 <= b < mid.entries@[a].members@.len() && same_sub(
                    (#[trigger] mid.entries@[a].members@[b])@,
                    v,
                ) ==> a == i && b == j,
            self.next_id == mid.next_id,
            self.entries@ == mid.entries@.remove(i),
        ensures
            self.wf(),
            self.view() == mid.view().filter(|u: SubView| !same_sub(u, v)),
    {
        assert forall|u: SubView| self.has(u) <==> mid.has(u) && !same_sub(u, v) by {
            if self.has(u) {
                let (a, b) = choose|a: int, b: int|
                    0 <= a < self.entries@.len() && 0 <= b < self.entries@[a].members@.len() && (
                    #[trigger] self.entries@[a].members@[b])@ == u;
                let a1 = if a < i { a } else { a + 1 };
                assert(self.entries@[a] == mid.entries@[a1]);
                assert(mid.entries@[a1].members@[b]@ == u);
            }
            if mid.has(u) && !same_sub(u, v) {
                let (a, b) = choose|a: int, b: int|
                    0 <= a < mid.entries@.len() && 0 <= b < mid.entries@[a].members@.len() && (
                    #[trigger] mid.entries@[a].members@[b])@ == u;
                assert(a != i);
                let a1 = if a < i { a } else { a - 1 };
                assert(self.entries@[a1] == mid.entries@[a]);
                assert(self.entries@[a1].members@[b]@ == u);
            }
        }
        assert(self.view() =~= mid.view().filter(|u: SubView| !same_sub(u, v)));
        assert forall|k: int| 0 <= k < self.entries@.len() implies (#[trigger] self.entries@[k]).wf() by {
            let k1 = if k < i { k } else { k + 1 };
            assert(self.entries@[k] == mid.entries@[k1]);
            assert(mid.entries@[k1].wf());
        }
        assert forall|x: int, y: int|
            0 <= x < self.entries@.len() && 0 <= y < self.entries@.len() && x != y implies !(
            (#[trigger] self.entries@[x]).subject@ == (#[trigger] self.entries@[y]).subject@
                && opt_bytes(self.entries@[x].queue) == opt_bytes(self.entries@[y].queue)) by {
            let x1 = if x < i { x } else { x + 1 };
            let y1 = if y < i { y } else { y + 1 };
            assert(self.entries@[x] == mid.entries@[x1]);
            assert(self.entries@[y] == mid.entries@[y1]);
        }
        assert forall|u: SubView| #[trigger] self.view().contains(u) implies u.id < self.next_id || self.next_id == u64::MAX by {
            assert(mid.view().contains(u));
        }
    }
}

impl<S: Clone> SimpleSubList<S> {
    /// The subscribers a publish to `subject` reaches, matched exactly: the
    /// plain subscribers of `subject`, and one group for each queue group on
    /// it, holding its members.
    pub fn match_subject(&self, subject: &[u8]) -> (r: SubResult<S>)
        requires
            self.wf(),
        ensures
            forall|k: int|
                0 <= k < r.ppubs@.len() ==> {
                    &&& self.view().contains(#[trigger] r.ppubs@[k]@)
                    &&& r.ppubs@[k]@.subject == subject@
                    &&& r.ppubs@[k]@.queue is None
                },
            forall|v: SubView|
                #[trigger] self.view().contains(v) && v.subject == subject@ && v.queue is None ==> exists|k: int|
                    0 <= k < r.ppubs@.len() && #[trigger] r.ppubs@[k]@ == v,
            forall|k: int, l: int|
                0 <= k < r.ppubs@.len() && 0 <= l < r.ppubs@.len() && k != l ==> (#[trigger] r.ppubs@[k])@.id
                    != (#[trigger] r.ppubs@[l])@.id,
            forall|g: int| 0 <= g < r.qpubs@.len() ==> (#[trigger] r.qpubs@[g])@.len() > 0,
            forall|g: int, k: int|
                0 <= g < r.qpubs@.len() && 0 <= k < r.qpubs@[g]@.len() ==> {
                    &&& self.view().contains(#[trigger] r.qpubs@[g]@[k]@)
                    &&& r.qpubs@[g]@[k]@.subject == subject@
                    &&& r.qpubs@[g]@[k]@.queue is Some
                    &&& r.qpubs@[g]@[k]@.queue == r.qpubs@[g]@[0]@.queue
                },
            forall|v: SubView|
                #[trigger] self.view().contains(v) && v.subject == subject@ && v.queue is Some ==> exists|g: int, k: int|
                    0 <= g < r.qpubs@.len() && 0 <= k < r.qpubs@[g]@.len() && #[trigger] r.qpubs@[g]@[k]@ == v,
            forall|g: int, h: int|
                0 <= g < r.qpubs@.len() && 0 <= h < r.qpubs@.len() && g != h ==> (#[trigger] r.qpubs@[g])@[0]@.queue
                    != (#[trigger] r.qpubs@[h])@[0]@.queue,
            forall|g: int, k: int, l: int|
                0 <= g < r.qpubs@.len() && 0 <= k < r.qpubs@[g]@.len() && 0 <= l < r.qpubs@[g]@.len() && k != l
                    ==> (#[trigger] r.qpubs@[g]@[k])@.id != (#[trigger] r.qpubs@[g]@[l])@.id,
            (forall|v: SubView| #[trigger] self.view().contains(v) ==> v.subject != subject@) ==> r.ppubs@.len() == 0
                && r.qpubs@.len() == 0,
    {
        let mut ppubs: Vec<SubScription<S>> = Vec::new();
        let found = self.find_entry(subject, &None);
        match found {
            Some(i) => {
                ppubs = copy_members(&self.entries[i].members);
            },
            None => {},
        }
        proof {
            self.lemma_plain(subject@, found, ppubs@);
        }
        let mut qpubs: Vec<Vec<SubScription<S>>> = Vec::new();
        let ghost mut src: Seq<int> = seq![];
        let mut i: usize = 0;
        while i < self.entries.len()
            invariant
                self.wf(),
                i <= self.entries@.len(),
                qpubs@.len() == src.len(),
                forall|g: int|
                    0 <= g < src.len() ==> {
                        &&& 0 <= #[trigger] src[g] < i
                        &&& self.entries@[src[g]].subject@ == subject@
                        &&& self.entries@[src[g]].queue is Some
                        &&& qpubs@[g]@.len() == self.entries@[src[g]].members@.len()
                        &&& forall|k: int|
                            0 <= k < qpubs@[g]@.len() ==> (#[trigger] qpubs@[g]@[k])@
                                == self.entries@[src[g]].members@[k]@
                    },
                forall|g: int, h: int| 0 <= g < h < src.len() ==> #[trigger] src[g] < #[trigger] src[h],
                forall|a: int|
                    0 <= a < i && (#[trigger] self.entries@[a]).subject@ == subject@ && self.entries@[a].queue is Some
                        ==> exists|g: int| 0 <= g < src.len() && src[g] == a,
            decreases self.entries@.len() - i,
        {
            let ghost src0 = src;
            let hit = bytes_eq(self.entries[i].subject.as_slice(), subject) && self.entries[i].queue.is_some();
            if hit {
                qpubs.push(copy_members(&self.entries[i].members));
                proof {
                    src = src.push(i as int);
                    assert(src[src.len() - 1] == i);
                }
            }
            proof {
                assert forall|a: int|
                    0 <= a < i + 1 && (#[trigger] self.entries@[a]).subject@ == subject@ && self.entries@[a].queue is Some
                    implies exists|g: int| 0 <= g < src.len() && src[g] == a by {
                    if a < i {
                        let g = choose|g: int| 0 <= g < src0.len() && src0[g] == a;
                        assert(src[g] == a);
                    } else {
                        assert(hit);
                        assert(src[src.len() - 1] == a);
                    }
                }
            }
            i = i + 1;
        }
        proof {
            self.lemma_groups(subject@, src, qpubs@);
            if forall|v: SubView| #[trigger] self.view().contains(v) ==> v.subject != subject@ {
                if ppubs@.len() > 0 {
                    assert(self.view().contains(ppubs@[0]@));
                }
                if qpubs@.len() > 0 {
                    assert(qpubs@[0]@.len() > 0);
                    assert(self.view().contains(qpubs@[0]@[0]@));
                }
            }
        }
        SubResult { ppubs, qpubs }
    }
}

impl<S> SimpleSubList<S> {
    proof fn lemma_plain(&self, s: Seq<u8>, found: Option<usize>, ppubs: Seq<SubScription<S>>)
        requires
            self.wf(),
            match found {
                Some(i) => i < self.entries@.len() && self.entries@[i as int].subject@ == s
                    && opt_bytes(self.entries@[i as int].queue) == None::<Seq<u8>>
                    && ppubs.len() == self.entries@[i as int].members@.len()
                    && forall|k: int| 0 <= k < ppubs.len() ==> (#[trigger] ppubs[k])@ == self.entries@[i as int].members@[k]@,
                None => ppubs.len() == 0 && forall|i: int|
                    0 <= i < self.entries@.len() ==> !((#[trigger] self.entries@[i]).subject@ == s
                        && opt_bytes(self.entries@[i].queue) == None::<Seq<u8>>),
            },
        ensures
            forall|k: int|
                0 <= k < ppubs.len() ==> {
                    &&& self.view().contains(#[trigger] ppubs[k]@)
                    &&& ppubs[k]@.subject == s
                    &&& ppubs[k]@.queue is None
                },
            forall|v: SubView|
                #[trigger] self.view().contains(v) && v.subject == s && v.queue is None ==> exists|k: int|
                    0 <= k < ppubs.len() && #[trigger] ppubs[k]@ == v,
            forall|k: int, l: int|
                0 <= k < ppubs.len() && 0 <= l < ppubs.len() && k != l ==> (#[trigger] ppubs[k])@.id
                    != (#[trigger] ppubs[l])@.id,
    {
        if let Some(i) = found {
            let i = i as int;
            assert(self.entries@[i].wf());
            assert forall|k: int| 0 <= k < ppubs.len() implies {
                &&& self.view().contains(#[trigger] ppubs[k]@)
                &&& ppubs[k]@.subject == s
                &&& ppubs[k]@.queue is None
            } by {
                assert(self.entries@[i].members@[k]@ == ppubs[k]@);
                assert(self.has(ppubs[k]@));
            }
            assert forall|k: int, l: int|
                0 <= k < ppubs.len() && 0 <= l < ppubs.len() && k != l implies (#[trigger] ppubs[k])@.id
                    != (#[trigger] ppubs[l])@.id by {
                assert(self.entries@[i].members@[k]@ == ppubs[k]@);
                assert(self.entries@[i].members@[l]@ == ppubs[l]@);
            }
        }
        assert forall|v: SubView|
            #[trigger] self.view().contains(v) && v.subject == s && v.queue is None implies exists|k: int|
                0 <= k < ppubs.len() && #[trigger] ppubs[k]@ == v by {
            assert(self.has(v));
            let (a, b) = choose|a: int, b: int|
                0 <= a < self.entries@.len() && 0 <= b < self.entries@[a].members@.len() && (
                #[trigger] self.entries@[a].members@[b])@ == v;
            assert(self.entries@[a].wf());
            match found {
                Some(i) => {
                    if a != i as int {
                        assert(!(self.entries@[a].subject@ == self.entries@[i as int].subject@ && opt_bytes(self.entries@[a].queue) == opt_bytes(self.entries@[i as int].queue)));
                    }
                    assert(ppubs[b]@ == v);
                },
                None => {
                    assert(!(self.entries@[a].subject@ == s && opt_bytes(self.entries@[a].queue) == None::<Seq<u8>>));
                },
            }
        }
    }

    proof fn lemma_groups(&self, s: Seq<u8>, src: Seq<int>, qpubs: Seq<Vec<SubScription<S>>>)
        requires
            self.wf(),
            qpubs.len() == src.len(),
            forall|g: int|
                0 <= g < src.len() ==> {
                    &&& 0 <= #[trigger] src[g] < self.entries@.len()
                    &&& self.entries@[src[g]].subject@ == s
                    &&& self.entries@[src[g]].queue is Some
                    &&& qpubs[g]@.len() == self.entries@[src[g]].members@.len()
                    &&& forall|k: int|
                        0 <= k < qpubs[g]@.len() ==> (#[trigger] qpubs[g]@[k])@ == self.entries@[src[g]].members@[k]@
                },
            forall|g: int, h: int| 0 <= g < h < src.len() ==> #[trigger] src[g] < #[trigger] src[h],
            forall|a: int|
                0 <= a < self.entries@.len() && (#[trigger] self.entries@[a]).subject@ == s && self.entries@[a].queue is Some
                    ==> exists|g: int| 0 <= g < src.len() && src[g] == a,
        ensures
            forall|g: int| 0 <= g < qpubs.len() ==> (#[trigger] qpubs[g])@.len() > 0,
            forall|g: int, k: int|
                0 <= g < qpubs.len() && 0 <= k < qpubs[g]@.len() ==> {
                    &&& self.view().contains(#[trigger] qpubs[g]@[k]@)
                    &&& qpubs[g]@[k]@.subject == s
                    &&& qpubs[g]@[k]@.queue is Some
                    &&& qpubs[g]@[k]@.queue == qpubs[g]@[0]@.queue
                },
            forall|v: SubView|
                #[trigger] self.view().contains(v) && v.subject == s && v.queue is Some ==> exists|g: int, k: int|
                    0 <= g < qpubs.len() && 0 <= k < qpubs[g]@.len() && #[trigger] qpubs[g]@[k]@ == v,
            forall|g: int, h: int|
                0 <= g < qpubs.len() && 0 <= h < qpubs.len() && g != h ==> (#[trigger] qpubs[g])@[0]@.queue
                    != (#[trigger] qpubs[h])@[0]@.queue,
            forall|g: int, k: int, l: int|
                0 <= g < qpubs.len() && 0 <= k < qpubs[g]@.len() && 0 <= l < qpubs[g]@.len() && k != l
                    ==> (#[trigger] qpubs[g]@[k])@.id != (#[trigger] qpubs[g]@[l])@.id,
    {
        assert forall|g: int| 0 <= g < qpubs.len() implies (#[trigger] qpubs[g])@.len() > 0 by {
            assert(self.entries@[src[g]].wf());
        }
        assert forall|g: int, k: int| 0 <= g < qpubs.len() && 0 <= k < qpubs[g]@.len() implies {
            &&& self.view().contains(#[trigger] qpubs[g]@[k]@)
            &&& qpubs[g]@[k]@.subject == s
            &&& qpubs[g]@[k]@.queue is Some
            &&& qpubs[g]@[k]@.queue == qpubs[g]@[0]@.queue
        } by {
            let e = self.entries@[src[g]];
            assert(e.wf());
            assert(e.members@[k]@ == qpubs[g]@[k]@);
            assert(e.members@[0]@ == qpubs[g]@[0]@);
            assert(self.has(qpubs[g]@[k]@));
        }
        assert forall|v: SubView|
            #[trigger] self.view().contains(v) && v.subject == s && v.queue is Some implies exists|g: int, k: int|
                0 <= g < qpubs.len() && 0 <= k < qpubs[g]@.len() && #[trigger] qpubs[g]@[k]@ == v by {
            assert(self.has(v));
            let (a, b) = choose|a: int, b: int|
                0 <= a < self.entries@.len() && 0 <= b < self.entries@[a].members@.len() && (
                #[trigger] self.entries@[a].members@[b])@ == v;
            assert(self.entries@[a].wf());
            let g = choose|g: int| 0 <= g < src.len() && src[g] == a;
            assert(qpubs[g]@[b]@ == v);
        }
        assert forall|g: int, h: int|
            0 <= g < qpubs.len() && 0 <= h < qpubs.len() && g != h implies (#[trigger] qpubs[g])@[0]@.queue
                != (#[trigger] qpubs[h])@[0]@.queue by {
            let eg = self.entries@[src[g]];
            let eh = self.entries@[src[h]];
            assert(eg.wf());
            assert(eh.wf());
            assert(eg.members@[0]@ == qpubs[g]@[0]@);
            assert(eh.members@[0]@ == qpubs[h]@[0]@);
            if g < h {
                assert(src[g] < src[h]);
            } else {
                assert(src[h] < src[g]);
            }
        }
        assert forall|g: int, k: int, l: int|
            0 <= g < qpubs.len() && 0 <= k < qpubs[g]@.len() && 0 <= l < qpubs[g]@.len() && k != l
            implies (#[trigger] qpubs[g]@[k])@.id != (#[trigger] qpubs[g]@[l])@.id by {
            let e = self.entries@[src[g]];
            assert(e.wf());
            assert(e.members@[k]@ == qpubs[g]@[k]@);
            assert(e.members@[l]@ == qpubs[g]@[l]@);
        }
    }
}

/// The registry's interface, so that another matching strategy (such as
/// wildcard subjects) can stand in for the exact-match one.
pub trait SubListTrait<S: Clone>: Sized {
    /// The registry's internal invariant.
    spec fn inv(&self) -> bool;

    /// The live subscriptions.
    spec fn subs(&self) -> Set<SubView>;

    /// Makes a subscription whose identity no live subscription has.
    fn new_subscription(&mut self, msg_sender: S, subject: &[u8], queue: Option<&[u8]>, sid: &[u8]) -> (r:
        Result<SubScription<S>, NError>)
        requires
            old(self).inv(),
        ensures
            final(self).inv(),
            final(self).subs() == old(self).subs(),
            r is Err ==> r->Err_0.err_code == ERROR_REGISTRY_FULL,
            r is Ok ==> r->Ok_0@.subject == subject@ && r->Ok_0@.sid == sid@ && r->Ok_0@.queue == match queue {
                Some(q) => Some(q@),
                None => None::<Seq<u8>>,
            },
            r is Ok ==> forall|v: SubView| #[trigger] final(self).subs().contains(v) ==> v.id != r->Ok_0@.id,
    ;

    fn insert(&mut self, sub: SubScription<S>) -> (r: Result<(), NError>)
        requires
            old(self).inv(),
        ensures
            final(self).inv(),
            r is Ok,
            final(self).subs() == if exists|u: SubView| #[trigger]
                old(self).subs().contains(u) && same_sub(u, sub@) {
                old(self).subs()
            } else {
                old(self).subs().insert(sub@)
            },
    ;

    fn remove(&mut self, sub: &SubScription<S>) -> (r: Result<(), NError>)
        requires
            old(self).inv(),
        ensures
            final(self).inv(),
            r is Ok,
            final(self).subs() == removed(old(self).subs(), sub@),
    ;

    fn match_subject(&self, subject: &[u8]) -> (r: SubResult<S>)
        requires
            self.inv(),
        ensures
            forall|k: int|
                0 <= k < r.ppubs@.len() ==> self.subs().contains(#[trigger] r.ppubs@[k]@)
                    && r.ppubs@[k]@.subject == subject@ && r.ppubs@[k]@.queue is None,
            forall|v: SubView|
                #[trigger] self.subs().contains(v) && v.subject == subject@ && v.queue is None ==> exists|k: int|
                    0 <= k < r.ppubs@.len() && #[trigger] r.ppubs@[k]@ == v,
            forall|g: int, k: int|
                0 <= g < r.qpubs@.len() && 0 <= k < r.qpubs@[g]@.len() ==> self.subs().contains(
                    #[trigger] r.qpubs@[g]@[k]@,
                ) && r.qpubs@[g]@[k]@.subject == subject@ && r.qpubs@[g]@[k]@.queue is Some,
            forall|v: SubView|
                #[trigger] self.subs().contains(v) && v.subject == subject@ && v.queue is Some ==> exists|g: int, k: int|
                    0 <= g < r.qpubs@.len() && 0 <= k < r.qpubs@[g]@.len() && #[trigger] r.qpubs@[g]@[k]@ == v,
    ;
}

impl<S: Clone> SubListTrait<S> for SimpleSubList<S> {
    closed spec fn inv(&self) -> bool {
        self.wf()
    }

    closed spec fn subs(&self) -> Set<SubView> {
        self.view()
    }

    fn new_subscription(&mut self, msg_sender: S, subject: &[u8], queue: Option<&[u8]>, sid: &[u8]) -> (r:
        Result<SubScription<S>, NError>) {
        SimpleSubList::new_subscription(self, msg_sender, subject, queue, sid)
    }

    fn insert(&mut self, sub: SubScription<S>) -> (r: Result<(), NError>) {
        SimpleSubList::insert(self, sub)
    }

    fn remove(&mut self, sub: &SubScription<S>) -> (r: Result<(), NError>) {
        SimpleSubList::remove(self, sub)
    }

    fn match_subject(&self, subject: &[u8]) -> (r: SubResult<S>) {
        SimpleSubList::match_subject(self, subject)
    }
}

// ---------------------------------------------------------------------------
// Laws of the registry.
// ---------------------------------------------------------------------------

/// What `remove` leaves of the live set `before` when asked to remove `x`.
pub open spec fn removed(before: Set<SubView>, x: SubView) -> Set<SubView> {
    before.filter(|u: SubView| !same_sub(u, x))
}

impl<S> SimpleSubList<S> {
    /// The index holds no empty entries: an entry for a subject and queue
    /// group exists exactly while a live subscription has them.
    pub proof fn lemma_no_empty_entries(&self, subject: Seq<u8>, queue: Option<Seq<u8>>)
        requires
            self.wf(),
        ensures
            self.has_entry(subject, queue) <==> exists|v: SubView|
                #[trigger] self.view().contains(v) && v.subject == subject && v.queue == queue,
    {
        if self.has_entry(subject, queue) {
            let i = choose|i: int|
                0 <= i < self.entries@.len() && (#[trigger] self.entries@[i]).subject@ == subject
                    && opt_bytes(self.entries@[i].queue) == queue;
            assert(self.entries@[i].wf());
            let v = self.entries@[i].members@[0]@;
            assert(self.has(v));
            assert(self.view().contains(v));
        }
        if exists|v: SubView| #[trigger] self.view().contains(v) && v.subject == subject && v.queue == queue {
            let v = choose|v: SubView| #[trigger] self.view().contains(v) && v.subject == subject && v.queue == queue;
            assert(self.has(v));
            let (a, b) = choose|a: int, b: int|
                0 <= a < self.entries@.len() && 0 <= b < self.entries@[a].members@.len() && (
                #[trigger] self.entries@[a].members@[b])@ == v;
            assert(self.entries@[a].wf());
            assert(self.entries@[a].subject@ == subject && opt_bytes(self.entries@[a].queue) == queue);
        }
    }
}

/// Removing one subscription leaves every other one live, whatever their
/// subjects, queue groups or sids: subscribers to one subject are
/// independent of each other.
pub proof fn lemma_remove_keeps_others(before: Set<SubView>, x: SubView, u: SubView)
    requires
        before.contains(u),
        !same_sub(u, x),
    ensures
        removed(before, x).contains(u),
{
}

/// Removal goes by identity: of two live subscriptions with different
/// identities (made by two calls of `new_subscription`, even with equal
/// subject, queue and sid), removing one keeps the other.
pub proof fn lemma_identity_removal(before: Set<SubView>, x: SubView, y: SubView)
    requires
        before.contains(x),
        before.contains(y),
        x.id != y.id,
    ensures
        !removed(before, x).contains(x),
        removed(before, x).contains(y),
{
}

/// Removal is idempotent: removing a subscription a second time changes
/// nothing, and removing one that is not live changes nothing.
pub proof fn lemma_remove_idempotent(before: Set<SubView>, x: SubView)
    ensures
        removed(removed(before, x), x) == removed(before, x),
        (forall|u: SubView| #[trigger] before.contains(u) ==> !same_sub(u, x)) ==> removed(before, x) == before,
{
    assert(removed(removed(before, x), x) =~= removed(before, x));
    if forall|u: SubView| #[trigger] before.contains(u) ==> !same_sub(u, x) {
        assert(removed(before, x) =~= before);
    }
}

// ---------------------------------------------------------------------------
// Choosing one member of a queue group.
// ---------------------------------------------------------------------------

/// The member picked at the `k`-th publish after a round-robin counter stood
/// at `start`, for a group of `n` members.
pub open spec fn rr_pick(start: nat, n: nat, k: nat) -> nat {
    ((start + k) as int % (n as int)) as nat
}

/// Whether one of `n` consecutive picks from `start` is member `j`.
pub open spec fn rr_reaches(start: nat, n: nat, j: nat) -> bool {
    exists|k: nat| k < n && #[trigger] rr_pick(start, n, k) == j
}

/// Round-robin selection for one queue group: each publish goes to the next
/// member in turn.
pub struct RoundRobin {
    next: usize,
}

impl RoundRobin {
    pub closed spec fn next_pick(&self) -> nat {
        self.next as nat
    }

    pub fn new() -> (r: Self)
        ensures
            r.next_pick() == 0,
    {
        RoundRobin { next: 0 }
    }

    /// The index of the member of a group of `n` to receive this publish.
    pub fn pick(&mut self, n: usize) -> (r: usize)
        requires
            n > 0,
        ensures
            r == old(self).next_pick() as int % (n as int),
            r < n,
            final(self).next_pick() == (r + 1) as int % (n as int),
    {
        let r = self.next % n;
        self.next = (r + 1) % n;
        r
    }
}

proof fn lemma_mod_below_twice(x: int, n: int)
    requires
        0 < n,
        0 <= x < 2 * n,
    ensures
        x % n == if x < n { x } else { x - n },
{
    if x < n {
        vstd::arithmetic::div_mod::lemma_small_mod(x as nat, n as nat);
    } else {
        vstd::arithmetic::div_mod::lemma_mod_add_multiples_vanish(x - n, n);
        vstd::arithmetic::div_mod::lemma_small_mod((x - n) as nat, n as nat);
    }
}

/// Queue-group exclusivity: `n` consecutive round-robin picks over a group of
/// `n` members reach each member exactly once, from any counter value; and
/// the counter that `pick` leaves is the one for the next publish.
pub proof fn lemma_round_robin_permutation(start: nat, n: nat)
    requires
        n > 0,
    ensures
        forall|j: nat| j < n ==> #[trigger] rr_reaches(start, n, j),
        forall|k1: nat, k2: nat|
            k1 < n && k2 < n && #[trigger] rr_pick(start, n, k1) == #[trigger] rr_pick(start, n, k2) ==> k1 == k2,
        forall|k: nat| (#[trigger] rr_pick(start, n, k) as int + 1) % (n as int) == rr_pick(start, n, k + 1),
{
    let ni = n as int;
    let s0 = (start as int) % ni;
    assert(0 <= s0 < ni) by {
        vstd::arithmetic::div_mod::lemma_mod_bound(start as int, ni);
    }
    assert forall|k: nat| k < n implies rr_pick(start, n, k) as int == if s0 + k < ni { s0 + k } else { s0 + k - ni } by {
        vstd::arithmetic::div_mod::lemma_add_mod_noop(start as int, k as int, ni);
        vstd::arithmetic::div_mod::lemma_small_mod(k, n);
        lemma_mod_below_twice(s0 + k, ni);
    }
    assert forall|j: nat| j < n implies #[trigger] rr_reaches(start, n, j) by {
        let k: nat = if j >= s0 { (j - s0) as nat } else { (j + ni - s0) as nat };
        assert(rr_pick(start, n, k) as int == if s0 + k < ni { s0 + k } else { s0 + k - ni });
    }
    assert forall|k1: nat, k2: nat|
        k1 < n && k2 < n && #[trigger] rr_pick(start, n, k1) == #[trigger] rr_pick(start, n, k2) implies k1 == k2 by {
        assert(rr_pick(start, n, k1) as int == if s0 + k1 < ni { s0 + k1 } else { s0 + k1 - ni });
        assert(rr_pick(start, n, k2) as int == if s0 + k2 < ni { s0 + k2 } else { s0 + k2 - ni });
    }
    assert forall|k: nat| (#[trigger] rr_pick(start, n, k) as int + 1) % ni == rr_pick(start, n, k + 1) by {
        if n == 1 {
            vstd::arithmetic::div_mod::lemma_mod_bound(rr_pick(start, n, k) as int + 1, 1);
            vstd::arithmetic::div_mod::lemma_mod_bound((start + k + 1) as int, 1);
        } else {
            vstd::arithmetic::div_mod::lemma_add_mod_noop((start + k) as int, 1, ni);
            vstd::arithmetic::div_mod::lemma_small_mod(1, n);
            vstd::arithmetic::div_mod::lemma_mod_bound((start + k) as int, ni);
        }
    }
}

} // verus!
