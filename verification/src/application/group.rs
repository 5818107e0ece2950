//! The threads of one application.

use crate::application::publication::KernelLinkReceipt;
use crate::dynamic_linker::publish::LinkProduct;
use vstd::prelude::*;

verus! {

/// How far a group has come.
#[derive(Clone, Copy, Debug, Eq, PartialEq, Structural)]
pub enum GroupState {
    /// No thread runs and no link is installed.
    New,
    /// A link is installed.
    Linked,
}

#[derive(Clone, Copy, Debug, Eq, PartialEq, Structural)]
pub enum ThreadGroupError {
    AlreadyMember,
    NotMember,
    AlreadyLinked,
}

/// The threads of an application, by their numbers, and its link.
pub struct ThreadGroup {
    pub state: GroupState,
    pub members: Vec<usize>,
    pub product: Option<LinkProduct<KernelLinkReceipt>>,
}

/// The position of a thread among the members from `from` on.
pub open spec fn member_from(members: Seq<usize>, id: usize, from: int) -> Option<int>
    decreases members.len() - from,
{
    if from >= members.len() {
        None
    } else if members[from] == id {
        Some(from)
    } else {
        member_from(members, id, from + 1)
    }
}

proof fn lemma_member_from(members: Seq<usize>, id: usize, from: int)
    requires
        0 <= from <= members.len(),
    ensures
        match member_from(members, id, from) {
            Some(i) => from <= i < members.len() && members[i] == id,
            None => forall|i: int| from <= i < members.len() ==> members[i] != id,
        },
    decreases members.len() - from,
{
    if from < members.len() {
        lemma_member_from(members, id, from + 1);
    }
}

impl ThreadGroup {
    /// No thread is a member twice, and a link is installed exactly in a linked group.
    pub open spec fn wf(self) -> bool {
        &&& forall|i: int, j: int|
            0 <= i < j < self.members@.len() ==> #[trigger] self.members@[i]
                != #[trigger] self.members@[j]
        &&& self.state == GroupState::Linked <==> self.product is Some
    }

    #[inline]
    pub fn state(&self) -> (r: GroupState)
        ensures
            r == self.state,
    {
        self.state
    }

    /// Installs the link of a new group.
    pub fn install_link_product(&mut self, product: LinkProduct<KernelLinkReceipt>) -> (r: Result<
        (),
        ThreadGroupError,
    >)
        requires
            old(self).wf(),
        ensures
            final(self).wf(),
            final(self).members == old(self).members,
            if old(self).state == GroupState::New {
                &&& r is Ok
                &&& final(self).state == GroupState::Linked
                &&& final(self).product == Some(product)
            } else {
                &&& r == Err::<(), ThreadGroupError>(ThreadGroupError::AlreadyLinked)
                &&& *final(self) == *old(self)
            },
    {
        if self.state != GroupState::New {
            return Err(ThreadGroupError::AlreadyLinked);
        }
        self.state = GroupState::Linked;
        self.product = Some(product);
        Ok(())
    }

    /// Takes the link out of a group, which is a new one then.
    pub fn take_link_product(&mut self) -> (r: Option<LinkProduct<KernelLinkReceipt>>)
        requires
            old(self).wf(),
        ensures
            final(self).wf(),
            r == old(self).product,
            final(self).product is None,
            final(self).state == GroupState::New,
            final(self).members == old(self).members,
    {
        self.state = GroupState::New;
        self.product.take()
    }

    fn position(&self, id: usize) -> (r: Option<usize>)
        ensures
            match member_from(self.members@, id, 0) {
                Some(i) => r matches Some(found) && found == i && i < self.members@.len(),
                None => r is None,
            },
    {
        let mut index: usize = 0;
        while index < self.members.len()
            invariant
                index <= self.members@.len(),
                member_from(self.members@, id, 0) == member_from(
                    self.members@,
                    id,
                    index as int,
                ),
            decreases self.members@.len() - index,
        {
            if self.members[index] == id {
                return Some(index);
            }
            index = index + 1;
        }
        None
    }

    /// Adds a thread, which may not be a member yet.
    pub fn add_member(&mut self, id: usize) -> (r: Result<(), ThreadGroupError>)
        requires
            old(self).wf(),
        ensures
            final(self).wf(),
            final(self).state == old(self).state,
            final(self).product == old(self).product,
            if old(self).members@.contains(id) {
                &&& r == Err::<(), ThreadGroupError>(ThreadGroupError::AlreadyMember)
                &&& final(self).members@ == old(self).members@
            } else {
                &&& r is Ok
                &&& final(self).members@ == old(self).members@.push(id)
            },
    {
        proof {
            lemma_member_from(self.members@, id, 0);
        }
        if self.position(id).is_some() {
            return Err(ThreadGroupError::AlreadyMember);
        }
        self.members.push(id);
        Ok(())
    }

    /// Removes a thread. The last member takes its place.
    pub fn remove_member(&mut self, id: usize) -> (r: Result<(), ThreadGroupError>)
        requires
            old(self).wf(),
        ensures
            final(self).wf(),
            final(self).state == old(self).state,
            final(self).product == old(self).product,
            match member_from(old(self).members@, id, 0) {
                None => r == Err::<(), ThreadGroupError>(ThreadGroupError::NotMember)
                    && final(self).members@ == old(self).members@,
                Some(i) => r is Ok && final(self).members@ == old(self).members@.update(
                    i,
                    old(self).members@.last(),
                ).drop_last(),
            },
    {
        proof {
            lemma_member_from(self.members@, id, 0);
        }
        let index: usize = match self.position(id) {
            Some(index) => index,
            None => return Err(ThreadGroupError::NotMember),
        };
        let ghost before = self.members@;
        self.members.swap_remove(index);
        proof {
            let after = self.members@;
            assert(after =~= before.update(index as int, before.last()).drop_last());
            assert forall|i: int, j: int| 0 <= i < j < after.len() implies #[trigger] after[i]
                != #[trigger] after[j] by {
                let a = if i == index {
                    before.len() - 1
                } else {
                    i
                };
                let b = if j == index {
                    before.len() - 1
                } else {
                    j
                };
                assert(after[i] == before[a]);
                assert(after[j] == before[b]);
            }
        }
        Ok(())
    }

    #[inline]
    pub fn member_count(&self) -> (r: usize)
        ensures
            r == self.members@.len(),
    {
        self.members.len()
    }

    #[inline]
    pub fn is_empty(&self) -> (r: bool)
        ensures
            r == (self.members@.len() == 0),
    {
        self.member_count() == 0
    }
}

/// A thread that was removed is no member, and every other one still is.
pub proof fn removing_takes_one_member(group: ThreadGroup, id: usize, other: usize)
    requires
        group.wf(),
        group.members@.contains(id),
    ensures
        ({
            let i = member_from(group.members@, id, 0)->0;
            let after = group.members@.update(i, group.members@.last()).drop_last();
            &&& !after.contains(id)
            &&& other != id ==> (after.contains(other) <==> group.members@.contains(other))
            &&& after.len() == group.members@.len() - 1
        }),
{
    let members = group.members@;
    lemma_member_from(members, id, 0);
    let i = member_from(members, id, 0)->0;
    let after = members.update(i, members.last()).drop_last();
    if after.contains(id) {
        let j = choose|j: int| 0 <= j < after.len() && after[j] == id;
        if j == i {
            assert(members[members.len() - 1] == members[i]);
        } else {
            assert(members[j] == members[i]);
        }
    }
    if other != id {
        if after.contains(other) {
            let j = choose|j: int| 0 <= j < after.len() && after[j] == other;
            if j == i {
                assert(members[members.len() - 1] == other);
            } else {
                assert(members[j] == other);
            }
        }
        if members.contains(other) {
            let j = choose|j: int| 0 <= j < members.len() && members[j] == other;
            if j == members.len() - 1 {
                assert(after[i] == other);
            } else {
                assert(after[j] == other);
            }
        }
    }
}

/// Makes groups without threads.
pub struct ThreadGroupBackend;

impl ThreadGroupBackend {
    #[inline]
    pub fn new() -> Self {
        ThreadGroupBackend
    }

    pub fn create_group(&self) -> (r: ThreadGroup)
        ensures
            r.wf(),
            r.state == GroupState::New,
            r.members@.len() == 0,
            r.product is None,
    {
        ThreadGroup { state: GroupState::New, members: Vec::new(), product: None }
    }
}

} // verus!
