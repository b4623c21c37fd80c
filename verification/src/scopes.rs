//! The lexical scope stack used while lowering a function body: one frame
//! per block, each mapping names to what they bind.

use vstd::prelude::*;

use rustc_hash::{FxBuildHasher, FxHashMap};

use crate::ids::{LocalConstId, LocalId};

verus! {

/// What a name in a scope frame binds to: a runtime local or a block-scope
/// constant.
#[derive(Debug, Clone, Copy, PartialEq, Eq, Structural)]
pub enum Binding {
    Local(LocalId),
    Const(LocalConstId),
}

/// One scope frame: names to bindings.
pub type Frame = FxHashMap<String, Binding>;

/// The name/binding pairs a frame holds, names taken by their chars.
pub uninterp spec fn frame_bindings(f: Frame) -> Map<Seq<char>, Binding>;

/// An empty frame with room for `capacity` names
/// (`FxHashMap::with_capacity_and_hasher`).
#[verifier::external_body]
fn frame_new(capacity: usize) -> (frame: Frame)
    ensures
        frame_bindings(frame).dom().is_empty(),
{
    FxHashMap::with_capacity_and_hasher(capacity, FxBuildHasher)
}

/// The binding stored under the name equal to `name` (`HashMap::get`).
#[verifier::external_body]
fn frame_get(f: &Frame, name: &str) -> (r: Option<Binding>)
    ensures
        frame_bindings(*f).contains_key(name@) ==> r == Some(frame_bindings(*f)[name@]),
        !frame_bindings(*f).contains_key(name@) ==> r is None,
{
    f.get(name).copied()
}

/// Binds `name` to `b`, replacing an earlier binding (`HashMap::insert`).
#[verifier::external_body]
fn frame_insert(f: &mut Frame, name: String, b: Binding)
    ensures
        frame_bindings(*final(f)) == frame_bindings(*old(f)).insert(name@, b),
{
    f.insert(name, b);
}

/// The binding of `name` in the innermost frame that binds it.
pub open spec fn spec_lookup(frames: Seq<Map<Seq<char>, Binding>>, name: Seq<char>) -> Option<Binding>
    decreases frames.len(),
{
    if frames.len() == 0 {
        None
    } else if frames.last().contains_key(name) {
        Some(frames.last()[name])
    } else {
        spec_lookup(frames.drop_last(), name)
    }
}

/// The stack of scope frames, innermost last.
pub struct Scopes {
    stack: Vec<Frame>,
}

impl View for Scopes {
    type V = Seq<Map<Seq<char>, Binding>>;

    closed spec fn view(&self) -> Seq<Map<Seq<char>, Binding>> {
        self.stack@.map_values(|f: Frame| frame_bindings(f))
    }
}

impl Scopes {
    /// A stack holding one empty frame.
    pub fn new() -> (s: Scopes)
        ensures
            s@.len() == 1,
            s@[0].dom().is_empty(),
    {
        let mut stack = Vec::new();
        stack.push(frame_new(16));
        Scopes { stack }
    }

    /// Opens a new innermost frame.
    pub fn push(&mut self)
        ensures
            final(self)@.len() == old(self)@.len() + 1,
            final(self)@.drop_last() == old(self)@,
            final(self)@.last().dom().is_empty(),
    {
        self.stack.push(frame_new(4));
        assert(self@.drop_last() =~= old(self)@);
    }

    /// Closes the innermost frame, if any.
    pub fn pop(&mut self)
        ensures
            old(self)@.len() > 0 ==> final(self)@ == old(self)@.drop_last(),
            old(self)@.len() == 0 ==> final(self)@ == old(self)@,
    {
        let _ = self.stack.pop();
        assert(old(self)@.len() > 0 ==> self@ =~= old(self)@.drop_last());
    }

    fn insert(&mut self, name: String, binding: Binding)
        requires
            old(self)@.len() > 0,
        ensures
            final(self)@ == old(self)@.update(
                old(self)@.len() - 1,
                old(self)@.last().insert(name@, binding),
            ),
    {
        let mut top = self.stack.pop().unwrap();
        frame_insert(&mut top, name, binding);
        self.stack.push(top);
        assert(self@ =~= old(self)@.update(
            old(self)@.len() - 1,
            old(self)@.last().insert(name@, binding),
        ));
    }

    /// Binds `name` to a local in the innermost frame.
    pub fn define(&mut self, name: String, id: LocalId)
        requires
            old(self)@.len() > 0,
        ensures
            final(self)@ == old(self)@.update(
                old(self)@.len() - 1,
                old(self)@.last().insert(name@, Binding::Local(id)),
            ),
    {
        self.insert(name, Binding::Local(id));
    }

    /// Binds `name` to a block-scope constant in the innermost frame.
    pub fn define_const(&mut self, name: String, id: LocalConstId)
        requires
            old(self)@.len() > 0,
        ensures
            final(self)@ == old(self)@.update(
                old(self)@.len() - 1,
                old(self)@.last().insert(name@, Binding::Const(id)),
            ),
    {
        self.insert(name, Binding::Const(id));
    }

    /// Whether the innermost frame binds `name`: a second declaration of it
    /// in the same block.
    pub fn declared_in_current(&self, name: &str) -> (b: bool)
        ensures
            b == (self@.len() > 0 && self@.last().contains_key(name@)),
    {
        let n = self.stack.len();
        if n == 0 {
            return false;
        }
        assert(self@.last() == frame_bindings(self.stack@[n - 1]));
        frame_get(&self.stack[n - 1], name).is_some()
    }

    /// The binding of `name` in the innermost frame that binds it.
    pub fn lookup(&self, name: &str) -> (r: Option<Binding>)
        ensures
            r == spec_lookup(self@, name@),
    {
        let mut i = self.stack.len();
        assert(self@.take(i as int) =~= self@);
        while i > 0
            invariant
                i <= self.stack@.len(),
                spec_lookup(self@, name@) == spec_lookup(self@.take(i as int), name@),
            decreases i,
        {
            let ghost pre = self@.take(i as int);
            assert(pre.last() == self@[i - 1]);
            assert(pre.drop_last() =~= self@.take(i - 1));
            match frame_get(&self.stack[i - 1], name) {
                Some(b) => {
                    return Some(b);
                },
                None => {},
            }
            i = i - 1;
        }
        None
    }
}

impl Default for Scopes {
    /// A stack with no frame at all.
    fn default() -> (s: Scopes)
        ensures
            s@.len() == 0,
    {
        Scopes { stack: Vec::new() }
    }
}

} // verus!
