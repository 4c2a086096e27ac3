//! The editor's undo history: groups of changes, each change naming what it
//! touched with its value before and after. The stack decides which groups to
//! undo or redo; their changes are applied to the model as the `before` values,
//! last change first, to undo, and the `after` values, first change first, to
//! redo ([`crate::geometry_undo`] does so for rooms, walls and vertices).
use vstd::prelude::*;
use crate::ids::{RoomId, VertexId, WallId};

verus! {

/// Requests to move through the undo history.
#[derive(Clone, Copy, PartialEq, Eq, Structural, Debug)]
pub enum UndoCmd {
    Undo,
    Redo,
    SetIndex(usize),
}

/// What a change touched.
#[derive(Clone, Copy, PartialEq, Eq, Structural, Debug)]
pub enum EntryTarget {
    Room(RoomId),
    Wall(WallId),
    Vertex(VertexId),
    Player,
    Object(usize),
    World,
}

/// One change: its target and the target's value before and after it.
pub struct UndoEntry<S> {
    pub target: EntryTarget,
    pub before: S,
    pub after: S,
}

/// `entries` with `e` added: when the last entry has the same target, the two
/// become one, from the last entry's `before` to `e`'s `after`.
pub open spec fn push_entry<S>(entries: Seq<UndoEntry<S>>, e: UndoEntry<S>) -> Seq<UndoEntry<S>> {
    if entries.len() > 0 && entries.last().target == e.target {
        entries.drop_last().push(UndoEntry { target: e.target, before: entries.last().before, after: e.after })
    } else {
        entries.push(e)
    }
}

/// `a` with the entries of `b` added one by one.
pub open spec fn merge_entries<S>(a: Seq<UndoEntry<S>>, b: Seq<UndoEntry<S>>) -> Seq<UndoEntry<S>>
    decreases b.len(),
{
    if b.len() == 0 {
        a
    } else {
        push_entry(merge_entries(a, b.drop_last()), b.last())
    }
}

/// Changes made together, under one description.
pub struct UndoGroup<S> {
    changes: Vec<UndoEntry<S>>,
    description: String,
}

/// A group as its entries and its description.
pub type GroupView<S> = (Seq<UndoEntry<S>>, Seq<char>);

impl<S> UndoGroup<S> {
    pub closed spec fn view(&self) -> GroupView<S> {
        (self.changes@, self.description@)
    }

    /// An empty group with an empty description.
    pub fn new() -> (g: UndoGroup<S>)
        ensures
            g.view().0 == Seq::<UndoEntry<S>>::empty(),
            g.view().1 == Seq::<char>::empty(),
    {
        UndoGroup { changes: Vec::new(), description: String::new() }
    }

    /// Sets the description.
    pub fn describe_as(&mut self, description: String)
        ensures
            final(self).view() == (old(self).view().0, description@),
    {
        self.description = description;
    }

    /// Adds a change (see [`push_entry`]).
    pub fn push(&mut self, entry: UndoEntry<S>)
        ensures
            final(self).view() == (push_entry(old(self).view().0, entry), old(self).view().1),
    {
        let ghost e = entry;
        match self.changes.pop() {
            Some(mut last) => {
                if last.target == entry.target {
                    last.after = entry.after;
                    self.changes.push(last);
                    proof {
                        assert(self.changes@ =~= push_entry(old(self).changes@, e));
                    }
                } else {
                    self.changes.push(last);
                    self.changes.push(entry);
                    proof {
                        assert(self.changes@ =~= push_entry(old(self).changes@, e));
                    }
                }
            },
            None => {
                self.changes.push(entry);
                proof {
                    assert(self.changes@ =~= push_entry(old(self).changes@, e));
                }
            },
        }
    }

    /// Two groups merge when their descriptions are the same.
    pub fn can_merge(&self, other: &UndoGroup<S>) -> (b: bool)
        ensures
            b == (self.view().1 == other.view().1),
    {
        self.description == other.description
    }

    /// Adds the changes of `other`, one by one.
    pub fn merge(&mut self, other: UndoGroup<S>)
        ensures
            final(self).view() == (merge_entries(old(self).view().0, other.view().0), old(self).view().1),
    {
        let ghost b = other.changes@;
        let mut rest = other.changes;
        let ghost mut k: int = 0;
        while rest.len() > 0
            invariant
                0 <= k <= b.len(),
                rest@ == b.skip(k),
                self.changes@ == merge_entries(old(self).changes@, b.take(k)),
                self.description@ == old(self).description@,
            decreases rest@.len(),
        {
            proof {
                assert(b.take(k + 1).drop_last() =~= b.take(k));
                assert(b.take(k + 1).last() == b[k]);
            }
            let change = rest.remove(0);
            self.push(change);
            proof {
                k = k + 1;
                assert(rest@ =~= b.skip(k));
            }
        }
        proof {
            assert(b.take(k) =~= b);
        }
    }

    /// Whether the group has no change.
    pub fn is_empty(&self) -> (b: bool)
        ensures
            b == (self.view().0.len() == 0),
    {
        self.changes.len() == 0
    }

    /// The description.
    pub fn describe(&self) -> (d: &str)
        ensures
            d@ == self.view().1,
    {
        self.description.as_str()
    }

    /// The changes, in the order they were made.
    pub fn changes(&self) -> (c: &Vec<UndoEntry<S>>)
        ensures
            c@ == self.view().0,
    {
        &self.changes
    }
}

/// One step of moving through the history: undo or redo the group at `group`.
#[derive(Clone, Copy, PartialEq, Eq, Structural, Debug)]
pub struct UndoStep {
    pub group: usize,
    pub undo: bool,
}

/// The groups after pushing `g` onto `groups` truncated to `index`: with
/// `merge` and a last group of the same description, `g` is merged into it.
pub open spec fn push_group_view<S>(groups: Seq<GroupView<S>>, index: int, g: GroupView<S>, merge: bool) -> Seq<GroupView<S>> {
    let t = groups.take(index);
    if merge && t.len() > 0 && t.last().1 == g.1 {
        t.drop_last().push((merge_entries(t.last().0, g.0), t.last().1))
    } else {
        t.push(g)
    }
}

/// Pushing a group keeps the applied groups below the last one as they are.
/// The pushed group is merged into the last applied group only when it comes
/// inside the merge window and both have the same description; the merged
/// group keeps that description and holds the last group's changes followed by
/// the new ones. Otherwise the pushed group becomes the newest group of its
/// own, after all the applied ones.
pub proof fn law_push_group_merges_only_same_description<S>(
    groups: Seq<GroupView<S>>,
    index: int,
    g: GroupView<S>,
    merge: bool,
)
    requires
        0 <= index <= groups.len(),
    ensures
        ({
            let r = push_group_view(groups, index, g, merge);
            let merged = merge && index > 0 && groups[index - 1].1 == g.1;
            &&& !merged ==> r.len() == index + 1 && r[index] == g && forall|i: int| 0 <= i < index ==> #[trigger] r[i]
                == groups[i]
            &&& merged ==> r.len() == index && r[index - 1] == (merge_entries(groups[index - 1].0, g.0), g.1) && forall|
                i: int,
            | 0 <= i < index - 1 ==> #[trigger] r[i] == groups[i]
        }),
{
    let t = groups.take(index);
    if index > 0 {
        assert(t.last() == groups[index - 1]);
    }
}

/// The steps from `from` to `to`: undoing groups `from - 1` down to `to`, or
/// redoing groups `from` up to `to - 1`.
pub open spec fn steps_between(from: int, to: int) -> Seq<UndoStep> {
    if from > to {
        Seq::new((from - to) as nat, |i: int| UndoStep { group: (from - 1 - i) as usize, undo: true })
    } else {
        Seq::new((to - from) as nat, |i: int| UndoStep { group: (from + i) as usize, undo: false })
    }
}

/// The group an undo gives back and the index after it, from index `index`.
pub open spec fn undo_result(index: nat) -> (Option<nat>, nat) {
    if index > 0 {
        (Some((index - 1) as nat), (index - 1) as nat)
    } else {
        (None, index)
    }
}

/// The group a redo gives back and the index after it, from index `index` of
/// `len` groups.
pub open spec fn redo_result(index: nat, len: nat) -> (Option<nat>, nat) {
    if index < len {
        (Some(index), index + 1)
    } else {
        (None, index)
    }
}

/// The undo history. Groups below the index are applied; the others can be
/// redone.
pub struct UndoStack<S> {
    groups: Vec<UndoGroup<S>>,
    disabled_change_index: usize,
}

impl<S> UndoStack<S> {
    pub closed spec fn groups(&self) -> Seq<GroupView<S>> {
        self.groups@.map_values(|g: UndoGroup<S>| g.view())
    }

    pub closed spec fn index_spec(&self) -> nat {
        self.disabled_change_index as nat
    }

    #[verifier::type_invariant]
    spec fn inv(self) -> bool {
        self.disabled_change_index <= self.groups@.len()
    }

    /// An empty history.
    pub fn new() -> (s: UndoStack<S>)
        ensures
            s.groups() == Seq::<GroupView<S>>::empty(),
            s.index_spec() == 0,
    {
        let s = UndoStack { groups: Vec::new(), disabled_change_index: 0 };
        assert(s.groups() =~= Seq::<GroupView<S>>::empty());
        s
    }

    /// Forgets every group.
    pub fn clear(&mut self)
        ensures
            final(self).groups() == Seq::<GroupView<S>>::empty(),
            final(self).index_spec() == 0,
    {
        self.disabled_change_index = 0;
        self.groups = Vec::new();
        assert(self.groups() =~= Seq::<GroupView<S>>::empty());
    }

    /// Records `group` as the newest applied group: the groups that could be
    /// redone are dropped, and when `in_merge_window` and the last group has
    /// the same description, `group` is merged into it.
    pub fn push_group(&mut self, group: UndoGroup<S>, in_merge_window: bool)
        ensures
            final(self).groups() == push_group_view(
                old(self).groups(),
                old(self).index_spec() as int,
                group.view(),
                in_merge_window,
            ),
            final(self).index_spec() == final(self).groups().len(),
    {
        proof {
            use_type_invariant(&*self);
        }
        let ghost gv = group.view();
        let ghost old_groups = self.groups();
        let ghost idx = self.disabled_change_index as int;
        let keep = self.disabled_change_index;
        self.disabled_change_index = 0;
        let mut groups = Vec::new();
        std::mem::swap(&mut groups, &mut self.groups);
        groups.truncate(keep);
        assert(groups@.map_values(|g: UndoGroup<S>| g.view()) =~= old_groups.take(idx));
        let merged = match groups.pop() {
            Some(mut last) => {
                if in_merge_window && last.can_merge(&group) {
                    last.merge(group);
                    groups.push(last);
                    true
                } else {
                    groups.push(last);
                    groups.push(group);
                    false
                }
            },
            None => {
                groups.push(group);
                false
            },
        };
        proof {
            assert(groups@.map_values(|g: UndoGroup<S>| g.view()) =~= push_group_view(
                old_groups,
                idx,
                gv,
                in_merge_window,
            ));
        }
        let len = groups.len();
        self.groups = groups;
        self.disabled_change_index = len;
    }

    /// Whether a group can be undone.
    pub fn can_undo(&self) -> (b: bool)
        ensures
            b == (self.index_spec() > 0),
    {
        self.disabled_change_index > 0
    }

    /// Whether a group can be redone.
    pub fn can_redo(&self) -> (b: bool)
        ensures
            b == (self.index_spec() < self.groups().len()),
    {
        self.disabled_change_index < self.groups.len()
    }

    /// Steps back one group, returning the group to undo.
    pub fn undo(&mut self) -> (step: Option<usize>)
        ensures
            final(self).groups() == old(self).groups(),
            final(self).index_spec() == undo_result(old(self).index_spec()).1,
            step is None <==> undo_result(old(self).index_spec()).0 is None,
            step matches Some(i) ==> undo_result(old(self).index_spec()).0 == Some(i as nat),
    {
        proof {
            use_type_invariant(&*self);
        }
        if !self.can_undo() {
            return None;
        }
        self.disabled_change_index = self.disabled_change_index - 1;
        Some(self.disabled_change_index)
    }

    /// Steps forward one group, returning the group to redo.
    pub fn redo(&mut self) -> (step: Option<usize>)
        ensures
            final(self).groups() == old(self).groups(),
            final(self).index_spec() == redo_result(old(self).index_spec(), old(self).groups().len()).1,
            step is None <==> redo_result(old(self).index_spec(), old(self).groups().len()).0 is None,
            step matches Some(i) ==> redo_result(old(self).index_spec(), old(self).groups().len()).0 == Some(
                i as nat,
            ),
    {
        proof {
            use_type_invariant(&*self);
        }
        if self.disabled_change_index >= self.groups.len() {
            return None;
        }
        let step = self.disabled_change_index;
        self.disabled_change_index = self.disabled_change_index + 1;
        Some(step)
    }

    /// Moves to `index` (at most the number of groups), returning the groups to
    /// undo or redo on the way, in order.
    pub fn set_index(&mut self, index: usize) -> (steps: Vec<UndoStep>)
        ensures
            final(self).groups() == old(self).groups(),
            old(self).index_spec() == index ==> steps@.len() == 0 && final(self).index_spec() == index,
            old(self).index_spec() != index ==> {
                let t = if index < old(self).groups().len() {
                    index as int
                } else {
                    old(self).groups().len() as int
                };
                &&& final(self).index_spec() == t
                &&& steps@ == steps_between(old(self).index_spec() as int, t)
            },
    {
        proof {
            use_type_invariant(&*self);
        }
        let mut steps: Vec<UndoStep> = Vec::new();
        if self.disabled_change_index == index {
            return steps;
        }
        let target = if index < self.groups.len() {
            index
        } else {
            self.groups.len()
        };
        let ghost from = self.disabled_change_index as int;
        while self.disabled_change_index > target
            invariant
                target <= self.groups@.len(),
                self.disabled_change_index <= self.groups@.len(),
                self.groups == old(self).groups,
                from == old(self).disabled_change_index,
                from >= self.disabled_change_index >= target || self.disabled_change_index == from,
                from > target ==> steps@ == steps_between(from, self.disabled_change_index as int),
                from <= target ==> steps@.len() == 0 && self.disabled_change_index == from,
            decreases self.disabled_change_index,
        {
            self.disabled_change_index = self.disabled_change_index - 1;
            steps.push(UndoStep { group: self.disabled_change_index, undo: true });
            proof {
                assert(steps@ =~= steps_between(from, self.disabled_change_index as int));
            }
        }
        while self.disabled_change_index < target
            invariant
                target <= self.groups@.len(),
                self.disabled_change_index <= target || from > target,
                self.groups == old(self).groups,
                from == old(self).disabled_change_index,
                from > target ==> steps@ == steps_between(from, target as int) && self.disabled_change_index == target,
                from <= target ==> from <= self.disabled_change_index <= target && steps@ == steps_between(
                    from,
                    self.disabled_change_index as int,
                ),
            decreases target - self.disabled_change_index,
        {
            steps.push(UndoStep { group: self.disabled_change_index, undo: false });
            self.disabled_change_index = self.disabled_change_index + 1;
            proof {
                assert(steps@ =~= steps_between(from, self.disabled_change_index as int));
            }
        }
        steps
    }

    /// Number of applied groups.
    pub fn index(&self) -> (i: usize)
        ensures
            i == self.index_spec(),
            i <= self.groups().len(),
    {
        proof {
            use_type_invariant(self);
        }
        self.disabled_change_index
    }

    /// Number of groups.
    pub fn len(&self) -> (n: usize)
        ensures
            n == self.groups().len(),
    {
        self.groups.len()
    }

    /// The group at `index`, to apply its changes.
    pub fn group(&self, index: usize) -> (g: &UndoGroup<S>)
        requires
            index < self.groups().len(),
        ensures
            g.view() == self.groups()[index as int],
    {
        &self.groups[index]
    }

    /// The description of the group at `index`, or `"<invalid index>"`.
    pub fn describe(&self, index: usize) -> (d: &str)
        ensures
            index < self.groups().len() ==> d@ == self.groups()[index as int].1,
            index >= self.groups().len() ==> d@ == "<invalid index>"@,
    {
        if index < self.groups.len() {
            self.groups[index].describe()
        } else {
            "<invalid index>"
        }
    }
}

/// The steps an undo command gives, and the index after it, from index `index`
/// in a history of `len` groups.
pub open spec fn undo_cmd_outcome(index: nat, len: nat, cmd: UndoCmd) -> (Seq<UndoStep>, nat) {
    match cmd {
        UndoCmd::Undo => if index > 0 {
            (seq![UndoStep { group: (index - 1) as usize, undo: true }], (index - 1) as nat)
        } else {
            (Seq::<UndoStep>::empty(), index)
        },
        UndoCmd::Redo => if index < len {
            (seq![UndoStep { group: index as usize, undo: false }], index + 1)
        } else {
            (Seq::<UndoStep>::empty(), index)
        },
        UndoCmd::SetIndex(target) => if index == target {
            (Seq::<UndoStep>::empty(), index)
        } else {
            let t = if target < len {
                target as int
            } else {
                len as int
            };
            (steps_between(index as int, t), t as nat)
        },
    }
}

/// Carries out an undo command on the history, returning the groups to undo or
/// redo, in order.
pub fn handle_undo_cmd<S>(undo_stack: &mut UndoStack<S>, cmd: UndoCmd) -> (steps: Vec<UndoStep>)
    ensures
        final(undo_stack).groups() == old(undo_stack).groups(),
        steps@ == undo_cmd_outcome(old(undo_stack).index_spec(), old(undo_stack).groups().len(), cmd).0,
        final(undo_stack).index_spec() == undo_cmd_outcome(old(undo_stack).index_spec(), old(undo_stack).groups().len(), cmd).1,
{
    let mut steps: Vec<UndoStep> = Vec::new();
    match cmd {
        UndoCmd::Undo => {
            if let Some(group) = undo_stack.undo() {
                steps.push(UndoStep { group, undo: true });
            }
        },
        UndoCmd::Redo => {
            if let Some(group) = undo_stack.redo() {
                steps.push(UndoStep { group, undo: false });
            }
        },
        UndoCmd::SetIndex(index) => {
            steps = undo_stack.set_index(index);
        },
    }
    steps
}

/// Setting the index is undoing or redoing one group at a time: each step is
/// what a single undo (or redo) gives from where the steps before it left the
/// index, and the index ends at the target, or at the number of groups.
pub proof fn law_set_index_is_repeated_steps(index: nat, len: nat, target: usize)
    requires
        index <= len,
        len <= usize::MAX,
    ensures
        ({
            let steps = undo_cmd_outcome(index, len, UndoCmd::SetIndex(target)).0;
            let t = undo_cmd_outcome(index, len, UndoCmd::SetIndex(target)).1;
            &&& t == if target < len { target as nat } else { len }
            &&& t <= index ==> steps.len() == index - t && forall|i: int|
                0 <= i < steps.len() ==> (#[trigger] steps[i]).undo && undo_result((index - i) as nat) == (
                    Some(steps[i].group as nat),
                    (index - i - 1) as nat,
                )
            &&& t > index ==> steps.len() == t - index && forall|i: int|
                0 <= i < steps.len() ==> !(#[trigger] steps[i]).undo && redo_result((index + i) as nat, len) == (
                    Some(steps[i].group as nat),
                    (index + i + 1) as nat,
                )
        }),
{
}

/// Undoing and then redoing redoes the group just undone and brings the index
/// back where it was.
pub proof fn law_undo_then_redo(index: nat, len: nat)
    requires
        0 < index <= len,
    ensures
        redo_result(undo_result(index).1, len).0 == undo_result(index).0,
        redo_result(undo_result(index).1, len).1 == index,
{
}

/// Redoing and then undoing undoes the group just redone and brings the index
/// back where it was.
pub proof fn law_redo_then_undo(index: nat, len: nat)
    requires
        index < len,
    ensures
        undo_result(redo_result(index, len).1).0 == redo_result(index, len).0,
        undo_result(redo_result(index, len).1).1 == index,
{
}

/// After a push nothing can be redone, and the pushed changes are the last
/// group's last ones.
pub proof fn law_push_clears_redo<S>(groups: Seq<GroupView<S>>, index: int, g: GroupView<S>, merge: bool)
    requires
        0 <= index <= groups.len(),
        g.0.len() > 0,
    ensures
        push_group_view(groups, index, g, merge).len() <= index + 1,
        push_group_view(groups, index, g, merge).len() >= 1,
        push_group_view(groups, index, g, merge).last().0.len() > 0,
{
    let t = groups.take(index);
    if merge && t.len() > 0 && t.last().1 == g.1 {
        lemma_merge_nonempty(t.last().0, g.0);
    }
}

/// Merging a non-empty sequence of entries leaves a non-empty sequence.
proof fn lemma_merge_nonempty<S>(a: Seq<UndoEntry<S>>, b: Seq<UndoEntry<S>>)
    requires
        b.len() > 0,
    ensures
        merge_entries(a, b).len() > 0,
    decreases b.len(),
{
    if b.len() > 1 {
        lemma_merge_nonempty(a, b.drop_last());
    }
}

} // verus!
