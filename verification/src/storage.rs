//! The container family: 28 stacks and one queue of wrapping 32-bit
//! values, plus the selector that names the active container.
//!
//! Both container shapes share one five-method contract. The *front* of a
//! stack is its top (the end of the sequence); the front of the queue is
//! its head (the start of the sequence). Pushing always appends at the
//! end: the stack's top, the queue's tail. The binary fold removes the
//! two front values and appends the combined value at the end — for the
//! queue this deliberately places the result at the tail.

use crate::arith::{bin_eval, BinaryOp};
use crate::inst::{sel_valid, Select};
use vstd::prelude::*;

verus! {

/// The value a container yields first: a stack's top, the queue's head.
pub open spec fn front_val(c: Seq<i32>, queue: bool) -> i32
    recommends
        c.len() >= 1,
{
    if queue {
        c[0]
    } else {
        c.last()
    }
}

/// A container's contents after removing its front value.
pub open spec fn rest_of(c: Seq<i32>, queue: bool) -> Seq<i32>
    recommends
        c.len() >= 1,
{
    if queue {
        c.drop_first()
    } else {
        c.drop_last()
    }
}

/// A container's contents after duplicating its front value.
pub open spec fn dup_of(c: Seq<i32>, queue: bool) -> Seq<i32>
    recommends
        c.len() >= 1,
{
    if queue {
        seq![c[0]] + c
    } else {
        c.push(c.last())
    }
}

/// A container's contents after exchanging its two front values.
pub open spec fn swap_of(c: Seq<i32>, queue: bool) -> Seq<i32>
    recommends
        c.len() >= 2,
{
    if queue {
        c.update(0, c[1]).update(1, c[0])
    } else {
        c.update(c.len() - 1, c[c.len() - 2]).update(c.len() - 2, c[c.len() - 1])
    }
}

/// A container's contents after the binary fold replaced its two front
/// values by `v`: the remainder with `v` appended at the end. For a stack
/// `[.., b, a]` this yields `[.., v]`; for a queue `[a, b, rest..]` it
/// yields `[rest.., v]`.
pub open spec fn fold_of(c: Seq<i32>, queue: bool, v: i32) -> Seq<i32>
    recommends
        c.len() >= 2,
{
    rest_of(rest_of(c, queue), queue).push(v)
}

/// How a binary fold ended: done, refused for want of two values (the
/// cursor then reverses), or stopped by a zero divisor (fatal).
pub enum FoldOutcome {
    Done,
    Underflow,
    DivByZero,
}

/// One container: a stack or the queue.
pub enum Storage {
    Stack(Vec<i32>),
    Queue(Vec<i32>),
}

impl Storage {
    /// The held values; index 0 is a stack's bottom or the queue's head.
    pub open spec fn contents(&self) -> Seq<i32> {
        match self {
            Storage::Stack(items) => items@,
            Storage::Queue(items) => items@,
        }
    }

    /// Whether this container is the queue.
    pub open spec fn is_queue(&self) -> bool {
        match self {
            Storage::Stack(_) => false,
            Storage::Queue(_) => true,
        }
    }

    /// How many values the container holds.
    pub fn len(&self) -> (n: usize)
        ensures
            n == self.contents().len(),
    {
        match self {
            Storage::Stack(items) => items.len(),
            Storage::Queue(items) => items.len(),
        }
    }

    /// Pushes a value: onto a stack's top, onto the queue's tail.
    pub fn push(&mut self, value: i32)
        ensures
            final(self).is_queue() == old(self).is_queue(),
            final(self).contents() == old(self).contents().push(value),
    {
        match self {
            Storage::Stack(items) => items.push(value),
            Storage::Queue(items) => items.push(value),
        }
    }

    /// Removes and returns the front value; `None` leaves an empty
    /// container untouched.
    pub fn try_pop(&mut self) -> (r: Option<i32>)
        ensures
            final(self).is_queue() == old(self).is_queue(),
            old(self).contents().len() == 0 ==> r is None && final(self).contents()
                == old(self).contents(),
            old(self).contents().len() > 0 ==> r == Some(
                front_val(old(self).contents(), old(self).is_queue()),
            ) && final(self).contents() == rest_of(old(self).contents(), old(self).is_queue()),
    {
        match self {
            Storage::Stack(items) => items.pop(),
            Storage::Queue(items) => {
                if items.len() == 0 {
                    None
                } else {
                    let v = items.remove(0);
                    proof {
                        assert(items@ =~= old(self).contents().drop_first());
                    }
                    Some(v)
                }
            },
        }
    }

    /// Removes and returns the front value of a nonempty container.
    pub fn pop(&mut self) -> (r: i32)
        requires
            old(self).contents().len() >= 1,
        ensures
            final(self).is_queue() == old(self).is_queue(),
            r == front_val(old(self).contents(), old(self).is_queue()),
            final(self).contents() == rest_of(old(self).contents(), old(self).is_queue()),
    {
        match self {
            Storage::Stack(items) => items.pop().unwrap(),
            Storage::Queue(items) => {
                let v = items.remove(0);
                proof {
                    assert(items@ =~= old(self).contents().drop_first());
                }
                v
            },
        }
    }

    /// The binary fold: removes the front value `a` and the one below it
    /// `b`, and appends `bin_eval(op, b, a)` at the end. With fewer than
    /// two values it reports underflow and changes nothing; a zero
    /// divisor stops the fold after the removals.
    pub fn binary_op_assign(&mut self, op: BinaryOp) -> (r: FoldOutcome)
        ensures
            final(self).is_queue() == old(self).is_queue(),
            ({
                let c = old(self).contents();
                let q = old(self).is_queue();
                if c.len() < 2 {
                    r is Underflow && final(self).contents() == c
                } else {
                    let a = front_val(c, q);
                    let b = front_val(rest_of(c, q), q);
                    match bin_eval(op, b, a) {
                        Some(v) => r is Done && final(self).contents() == fold_of(c, q, v),
                        None => r is DivByZero && final(self).contents() == rest_of(
                            rest_of(c, q),
                            q,
                        ),
                    }
                }
            }),
    {
        let n = self.len();
        if n < 2 {
            return FoldOutcome::Underflow;
        }
        let a = self.pop();
        let b = self.pop();
        match crate::arith::eval_binary(op, b, a) {
            Some(v) => {
                self.push(v);
                FoldOutcome::Done
            },
            None => FoldOutcome::DivByZero,
        }
    }

    /// Exchanges the two front values; reports failure (and changes
    /// nothing) with fewer than two.
    pub fn swap(&mut self) -> (ok: bool)
        ensures
            final(self).is_queue() == old(self).is_queue(),
            ({
                let c = old(self).contents();
                if c.len() < 2 {
                    !ok && final(self).contents() == c
                } else {
                    ok && final(self).contents() == swap_of(c, old(self).is_queue())
                }
            }),
    {
        let n = self.len();
        if n < 2 {
            return false;
        }
        let a = self.pop();
        let b = self.pop();
        match self {
            Storage::Stack(items) => {
                items.push(a);
                items.push(b);
            },
            Storage::Queue(items) => {
                items.insert(0, a);
                items.insert(0, b);
            },
        }
        proof {
            assert(self.contents() =~= swap_of(old(self).contents(), old(self).is_queue()));
        }
        true
    }

    /// Copies the front value onto the front; reports failure (and
    /// changes nothing) when empty.
    pub fn dup(&mut self) -> (ok: bool)
        ensures
            final(self).is_queue() == old(self).is_queue(),
            ({
                let c = old(self).contents();
                if c.len() == 0 {
                    !ok && final(self).contents() == c
                } else {
                    ok && final(self).contents() == dup_of(c, old(self).is_queue())
                }
            }),
    {
        match self {
            Storage::Stack(items) => {
                if items.len() == 0 {
                    false
                } else {
                    let v = items[items.len() - 1];
                    items.push(v);
                    true
                }
            },
            Storage::Queue(items) => {
                if items.len() == 0 {
                    false
                } else {
                    let v = items[0];
                    items.insert(0, v);
                    proof {
                        assert(items@ =~= dup_of(old(self).contents(), true));
                    }
                    true
                }
            },
        }
    }
}

/// The container family with its selected index. Containers persist for
/// the program's lifetime; selection changes only the selector.
pub struct StorageSelector {
    pub select: Select,
    pub stacks: Vec<Storage>,
    pub queue: Storage,
}

impl StorageSelector {
    /// The family is well formed: 28 stacks and one queue.
    pub open spec fn wf(&self) -> bool {
        &&& self.stacks@.len() == 28
        &&& forall|i: int| 0 <= i < 28 ==> !(#[trigger] self.stacks@[i]).is_queue()
        &&& self.queue.is_queue()
    }

    /// The currently selected container.
    pub open spec fn spec_select(&self) -> Select {
        self.select
    }

    /// The contents of all 28 stacks, by index.
    pub open spec fn stacks_view(&self) -> Seq<Seq<i32>> {
        Seq::new(28, |i: int| self.stacks@[i].contents())
    }

    /// The contents of the queue, head first.
    pub open spec fn queue_view(&self) -> Seq<i32> {
        self.queue.contents()
    }

    /// The contents of the container a (non-channel) selector names.
    pub open spec fn view_of(&self, select: Select) -> Seq<i32>
        recommends
            sel_valid(select),
            !(select is Channel),
    {
        match select {
            Select::Stack(id) => self.stacks_view()[id as int],
            _ => self.queue_view(),
        }
    }

    /// A fresh family: every container empty, stack 0 selected.
    pub fn new() -> (r: Self)
        ensures
            r.wf(),
            r.spec_select() == Select::Stack(0u8),
            forall|i: int| 0 <= i < 28 ==> (#[trigger] r.stacks_view()[i]).len() == 0,
            r.queue_view().len() == 0,
    {
        let mut stacks: Vec<Storage> = Vec::new();
        let mut i: usize = 0;
        while i < 28
            invariant
                i <= 28,
                stacks@.len() == i,
                forall|j: int| 0 <= j < i ==> !(#[trigger] stacks@[j]).is_queue(),
                forall|j: int| 0 <= j < i ==> (#[trigger] stacks@[j]).contents().len() == 0,
            decreases 28 - i,
        {
            stacks.push(Storage::Stack(Vec::new()));
            i += 1;
        }
        StorageSelector { select: Select::Stack(0), stacks, queue: Storage::Queue(Vec::new()) }
    }

    /// Changes the selected index. No container is created, destroyed or
    /// modified: every stack and the queue keep their contents.
    pub fn select(&mut self, select: Select)
        ensures
            final(self).spec_select() == select,
            final(self).stacks_view() == old(self).stacks_view(),
            final(self).queue_view() == old(self).queue_view(),
            final(self).wf() == old(self).wf(),
    {
        self.select = select;
    }

    /// The selected selector, as a value.
    pub fn get_select(&self) -> (s: Select)
        ensures
            s == self.spec_select(),
    {
        self.select
    }

    /// Mutable access to the container a selector names. The selector
    /// must not be the channel, which has no container.
    pub fn get_storage(&mut self, select: Select) -> (st: &mut Storage)
        requires
            old(self).wf(),
            sel_valid(select),
            !(select is Channel),
        ensures
            st.is_queue() == (select is Queue),
            st.contents() == old(self).view_of(select),
            final(self).select == old(self).select,
            match select {
                Select::Stack(id) => final(self).stacks@ == old(self).stacks@.update(
                    id as int,
                    *final(st),
                ) && final(self).queue == old(self).queue,
                _ => final(self).queue == *final(st) && final(self).stacks@ == old(self).stacks@,
            },
    {
        match select {
            Select::Stack(id) => &mut self.stacks[id as usize],
            _ => &mut self.queue,
        }
    }

    /// After the container that a selector names was replaced by `stor`
    /// (and nothing else changed), the family's views update pointwise,
    /// and well-formedness holds whenever `stor` kept its shape.
    pub proof fn lemma_view_after_update(pre: Self, post: Self, select: Select, stor: Storage)
        requires
            sel_valid(select),
            !(select is Channel),
            pre.wf(),
            match select {
                Select::Stack(id) => post.stacks@ == pre.stacks@.update(id as int, stor)
                    && post.queue == pre.queue,
                _ => post.queue == stor && post.stacks@ == pre.stacks@,
            },
        ensures
            post.stacks_view() == (match select {
                Select::Stack(id) => pre.stacks_view().update(id as int, stor.contents()),
                _ => pre.stacks_view(),
            }),
            post.queue_view() == (if select is Queue {
                stor.contents()
            } else {
                pre.queue_view()
            }),
            stor.is_queue() == (select is Queue) ==> post.wf(),
    {
        match select {
            Select::Stack(id) => {
                assert(post.stacks_view() =~= pre.stacks_view().update(
                    id as int,
                    stor.contents(),
                ));
            },
            _ => {
                assert(post.stacks_view() =~= pre.stacks_view());
            },
        }
    }

    /// Mutable access to the currently selected container; the selected
    /// index must not be the channel.
    pub fn selected(&mut self) -> (st: &mut Storage)
        requires
            old(self).wf(),
            sel_valid(old(self).spec_select()),
            !(old(self).spec_select() is Channel),
        ensures
            st.is_queue() == (old(self).spec_select() is Queue),
            st.contents() == old(self).view_of(old(self).spec_select()),
            final(self).select == old(self).select,
            match old(self).spec_select() {
                Select::Stack(id) => final(self).stacks@ == old(self).stacks@.update(
                    id as int,
                    *final(st),
                ) && final(self).queue == old(self).queue,
                _ => final(self).queue == *final(st) && final(self).stacks@ == old(self).stacks@,
            },
    {
        let select = self.select;
        self.get_storage(select)
    }
}

/// After the container the selector names evolved from `pre` to `post`
/// by one access through the selector, derive the model-level views.
pub proof fn lemma_selected_views(pre: StorageSelector, post: StorageSelector, sel: Select)
    requires
        sel_valid(sel),
        !(sel is Channel),
        pre.wf(),
        match sel {
            Select::Stack(id) => post.stacks@ == pre.stacks@.update(
                id as int,
                post.stacks@[id as int],
            ) && post.queue == pre.queue,
            _ => post.stacks@ == pre.stacks@,
        },
    ensures
        post.stacks_view() == (match sel {
            Select::Stack(id) => pre.stacks_view().update(
                id as int,
                post.stacks@[id as int].contents(),
            ),
            _ => pre.stacks_view(),
        }),
        post.queue_view() == (if sel is Queue {
            post.queue.contents()
        } else {
            pre.queue_view()
        }),
        (match sel {
            Select::Stack(id) => post.stacks@[id as int].is_queue() == false,
            _ => post.queue.is_queue(),
        }) ==> post.wf(),
{
    match sel {
        Select::Stack(id) => {
            StorageSelector::lemma_view_after_update(pre, post, sel, post.stacks@[id as int]);
        },
        _ => {
            StorageSelector::lemma_view_after_update(pre, post, sel, post.queue);
        },
    }
}

} // verus!
