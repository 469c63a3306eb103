//! Named refs: what a bookmark, tag or raw ref points to, and the view that
//! holds all of them.
use vstd::prelude::*;

verus! {

/// The value a named ref points to.
pub enum RefTarget {
    /// The ref does not exist.
    Absent,
    /// The ref points to one commit.
    Normal(usize),
    /// Concurrent operations moved the ref differently.
    Conflicted { adds: Vec<usize>, removes: Vec<usize> },
}

/// The commits a target resolves to, in order.
pub open spec fn target_ids(t: RefTarget) -> Seq<usize> {
    match t {
        RefTarget::Absent => Seq::empty(),
        RefTarget::Normal(c) => seq![c],
        RefTarget::Conflicted { adds, removes } => adds@,
    }
}

impl RefTarget {
    /// A conflicted target has at least one added side.
    pub open spec fn wf(&self) -> bool {
        match self {
            RefTarget::Conflicted { adds, removes } => adds@.len() > 0,
            _ => true,
        }
    }

    pub open spec fn spec_is_present(&self) -> bool {
        !(self is Absent)
    }

    /// The commits this target resolves to: none when absent, one when
    /// normal, the added sides when conflicted.
    pub fn added_ids(&self) -> (r: Vec<usize>)
        ensures
            r@ == target_ids(*self),
    {
        match self {
            RefTarget::Absent => Vec::new(),
            RefTarget::Normal(c) => {
                let mut v: Vec<usize> = Vec::new();
                v.push(*c);
                assert(v@ =~= seq![*c]);
                v
            },
            RefTarget::Conflicted { adds, removes } => copy_positions(adds),
        }
    }

    /// False only for an absent target.
    pub fn is_present(&self) -> (r: bool)
        ensures
            r == self.spec_is_present(),
            self.wf() ==> (r <==> target_ids(*self).len() > 0),
    {
        match self {
            RefTarget::Absent => false,
            _ => true,
        }
    }

    /// The single commit of a normal target.
    pub fn as_normal(&self) -> (r: Option<usize>)
        ensures
            r == (match self {
                RefTarget::Normal(c) => Some(*c),
                _ => None,
            }),
    {
        match self {
            RefTarget::Normal(c) => Some(*c),
            _ => None,
        }
    }
}

/// A copy of a list of positions.
pub fn copy_positions(v: &Vec<usize>) -> (r: Vec<usize>)
    ensures
        r@ == v@,
{
    let mut r: Vec<usize> = Vec::new();
    let mut i: usize = 0;
    while i < v.len()
        invariant
            i <= v@.len(),
            r@ == v@.subrange(0, i as int),
        decreases v@.len() - i,
    {
        r.push(v[i]);
        i = i + 1;
    }
    assert(r@ =~= v@);
    r
}

/// A copy of a byte string.
pub fn copy_bytes(v: &Vec<u8>) -> (r: Vec<u8>)
    ensures
        r@ == v@,
{
    let mut r: Vec<u8> = Vec::new();
    let mut i: usize = 0;
    while i < v.len()
        invariant
            i <= v@.len(),
            r@ == v@.subrange(0, i as int),
        decreases v@.len() - i,
    {
        r.push(v[i]);
        i = i + 1;
    }
    assert(r@ =~= v@);
    r
}

/// Byte strings with equal contents.
pub fn bytes_eq(a: &Vec<u8>, b: &Vec<u8>) -> (r: bool)
    ensures
        r == (a@ == b@),
{
    if a.len() != b.len() {
        return false;
    }
    let mut i: usize = 0;
    while i < a.len()
        invariant
            i <= a@.len(),
            a@.len() == b@.len(),
            forall|j: int| 0 <= j < i ==> a@[j] == b@[j],
        decreases a@.len() - i,
    {
        if a[i] != b[i] {
            return false;
        }
        i = i + 1;
    }
    assert(a@ =~= b@);
    true
}

/// Whether a remote ref is kept in sync with the local bookmark of its name.
#[derive(PartialEq, Eq, Structural, Clone, Copy, Debug)]
pub enum RemoteRefState {
    New,
    Tracking,
}

/// A bookmark as last seen on a remote.
pub struct RemoteRef {
    pub target: RefTarget,
    pub state: RemoteRefState,
}

impl RemoteRef {
    pub fn is_tracking(&self) -> (r: bool)
        ensures
            r == (self.state == RemoteRefState::Tracking),
    {
        self.state == RemoteRefState::Tracking
    }
}

} // verus!
