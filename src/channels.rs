//! Voice channels listing who is fronting: the differ between the channels under the
//! category and the registry's ordered list of names.
use crate::summary::OpKind;
use vstd::prelude::*;

verus! {

/// A voice channel under the fronter category.
#[derive(Debug, Clone, PartialEq, Eq)]
pub struct FronterChannel {
    pub id: u64,
    pub name: String,
    pub position: u16,
}

/// One change to the channels under the category.
#[derive(Debug, Clone, PartialEq, Eq)]
pub enum ChannelOperation {
    Create { name: String, position: u16 },
    Delete { id: u64, name: String },
    Update { id: u64, name: String, position: u16 },
}

/// Abstract form of a `ChannelOperation`.
pub enum ChannelChange {
    Create { name: Seq<char>, position: u16 },
    Delete { id: u64, name: Seq<char> },
    Update { id: u64, name: Seq<char>, position: u16 },
}

impl View for ChannelOperation {
    type V = ChannelChange;

    open spec fn view(&self) -> ChannelChange {
        match self {
            ChannelOperation::Create { name, position } => ChannelChange::Create {
                name: name@,
                position: *position,
            },
            ChannelOperation::Delete { id, name } => ChannelChange::Delete { id: *id, name: name@ },
            ChannelOperation::Update { id, name, position } => ChannelChange::Update {
                id: *id,
                name: name@,
                position: *position,
            },
        }
    }
}

pub open spec fn channel_changes(ops: Seq<ChannelOperation>) -> Seq<ChannelChange> {
    ops.map_values(|o: ChannelOperation| o@)
}

pub open spec fn channel_change_name(c: ChannelChange) -> Seq<char> {
    match c {
        ChannelChange::Create { name, .. } => name,
        ChannelChange::Delete { name, .. } => name,
        ChannelChange::Update { name, .. } => name,
    }
}

pub open spec fn channel_change_kind(c: ChannelChange) -> OpKind {
    match c {
        ChannelChange::Create { .. } => OpKind::Create,
        ChannelChange::Delete { .. } => OpKind::Delete,
        ChannelChange::Update { .. } => OpKind::Update,
    }
}

impl ChannelOperation {
    pub fn kind(&self) -> (r: OpKind)
        ensures
            r == channel_change_kind(self@),
    {
        match self {
            ChannelOperation::Create { .. } => OpKind::Create,
            ChannelOperation::Delete { .. } => OpKind::Delete,
            ChannelOperation::Update { .. } => OpKind::Update,
        }
    }
}

pub open spec fn has_channel(s: Seq<FronterChannel>, n: Seq<char>) -> bool {
    exists|i: int| 0 <= i < s.len() && #[trigger] s[i].name@ == n
}

pub open spec fn channel_names_distinct(s: Seq<FronterChannel>) -> bool {
    forall|i: int, j: int| 0 <= i < s.len() && 0 <= j < s.len() && i != j ==> s[i].name@ != s[j].name@
}

pub open spec fn channel_index(s: Seq<FronterChannel>, n: Seq<char>) -> int {
    choose|i: int| 0 <= i < s.len() && #[trigger] s[i].name@ == n
}

/// The channel named `n` (meaningful where `has_channel(s, n)`).
pub open spec fn channel_named(s: Seq<FronterChannel>, n: Seq<char>) -> FronterChannel {
    s[channel_index(s, n)]
}

pub open spec fn has_name(s: Seq<String>, n: Seq<char>) -> bool {
    exists|i: int| 0 <= i < s.len() && #[trigger] s[i]@ == n
}

pub open spec fn names_distinct(s: Seq<String>) -> bool {
    forall|i: int, j: int| 0 <= i < s.len() && 0 <= j < s.len() && i != j ==> s[i]@ != s[j]@
}

/// Where the name `n` stands in `s` (meaningful where `has_name(s, n)`).
pub open spec fn name_index(s: Seq<String>, n: Seq<char>) -> int {
    choose|i: int| 0 <= i < s.len() && #[trigger] s[i]@ == n
}

/// A registry list that the differ takes: distinct names, each position fitting a `u16`.
pub open spec fn desired_names_wf(s: Seq<String>) -> bool {
    &&& names_distinct(s)
    &&& s.len() <= u16::MAX + 1
}

/// Deletions, in the order of `current`.
pub open spec fn channel_deletions(current: Seq<FronterChannel>, desired: Seq<String>) -> Seq<ChannelChange>
    decreases current.len(),
{
    if current.len() == 0 {
        seq![]
    } else {
        let rest = channel_deletions(current.drop_last(), desired);
        let c = current.last();
        if has_name(desired, c.name@) {
            rest
        } else {
            rest.push(ChannelChange::Delete { id: c.id, name: c.name@ })
        }
    }
}

/// Creations, in the order of `desired`; each at its index in `desired`.
pub open spec fn channel_creations(desired: Seq<String>, current: Seq<FronterChannel>) -> Seq<ChannelChange>
    decreases desired.len(),
{
    if desired.len() == 0 {
        seq![]
    } else {
        let rest = channel_creations(desired.drop_last(), current);
        let d = desired.last();
        if has_channel(current, d@) {
            rest
        } else {
            rest.push(ChannelChange::Create { name: d@, position: (desired.len() - 1) as u16 })
        }
    }
}

/// Moves, in the order of `desired`, of the channels not at their index in `desired`.
pub open spec fn channel_updates(desired: Seq<String>, current: Seq<FronterChannel>) -> Seq<ChannelChange>
    decreases desired.len(),
{
    if desired.len() == 0 {
        seq![]
    } else {
        let rest = channel_updates(desired.drop_last(), current);
        let d = desired.last();
        let pos = desired.len() - 1;
        if has_channel(current, d@) && channel_named(current, d@).position != pos {
            rest.push(
                ChannelChange::Update { id: channel_named(current, d@).id, name: d@, position: pos as u16 },
            )
        } else {
            rest
        }
    }
}

/// What the differ produces: every deletion, then every creation, then every move.
pub open spec fn channel_ops(current: Seq<FronterChannel>, desired: Seq<String>) -> Seq<ChannelChange> {
    channel_deletions(current, desired) + channel_creations(desired, current) + channel_updates(
        desired,
        current,
    )
}

/// Position of the channel named `name` in `channels`, if any.
pub fn find_channel(channels: &Vec<FronterChannel>, name: &String) -> (r: Option<usize>)
    ensures
        match r {
            Some(i) => i < channels@.len() && channels@[i as int].name@ == name@,
            None => !has_channel(channels@, name@),
        },
{
    let mut i: usize = 0;
    while i < channels.len()
        invariant
            i <= channels@.len(),
            forall|j: int| 0 <= j < i ==> channels@[j].name@ != name@,
        decreases channels@.len() - i,
    {
        if channels[i].name == *name {
            return Some(i);
        }
        i = i + 1;
    }
    None
}

/// Position of `name` in `names`, if any.
pub fn find_name(names: &Vec<String>, name: &String) -> (r: Option<usize>)
    ensures
        match r {
            Some(i) => i < names@.len() && names@[i as int]@ == name@,
            None => !has_name(names@, name@),
        },
{
    let mut i: usize = 0;
    while i < names.len()
        invariant
            i <= names@.len(),
            forall|j: int| 0 <= j < i ==> names@[j]@ != name@,
        decreases names@.len() - i,
    {
        if names[i] == *name {
            return Some(i);
        }
        i = i + 1;
    }
    None
}

pub proof fn lemma_channel_index(s: Seq<FronterChannel>, i: int)
    requires
        channel_names_distinct(s),
        0 <= i < s.len(),
    ensures
        has_channel(s, s[i].name@),
        channel_index(s, s[i].name@) == i,
{
    assert(has_channel(s, s[i].name@));
    let j = channel_index(s, s[i].name@);
    assert(s[j].name@ == s[i].name@);
}

pub proof fn lemma_name_index(s: Seq<String>, i: int)
    requires
        names_distinct(s),
        0 <= i < s.len(),
    ensures
        has_name(s, s[i]@),
        name_index(s, s[i]@) == i,
{
    assert(has_name(s, s[i]@));
    let j = name_index(s, s[i]@);
    assert(s[j]@ == s[i]@);
}

proof fn lemma_channel_changes_push(ops: Seq<ChannelOperation>, o: ChannelOperation)
    ensures
        channel_changes(ops.push(o)) == channel_changes(ops).push(o@),
{
    assert(channel_changes(ops.push(o)) =~= channel_changes(ops).push(o@));
}

/// Computes the changes that turn the channels under the category into the registry's
/// list, each channel at its index in that list.
pub fn get_channel_ops(current: &Vec<FronterChannel>, desired: &Vec<String>) -> (ops: Vec<ChannelOperation>)
    requires
        channel_names_distinct(current@),
        desired_names_wf(desired@),
    ensures
        channel_changes(ops@) == channel_ops(current@, desired@),
{
    let mut ops: Vec<ChannelOperation> = Vec::new();
    let mut i: usize = 0;
    while i < current.len()
        invariant
            i <= current@.len(),
            channel_changes(ops@) == channel_deletions(current@.subrange(0, i as int), desired@),
        decreases current@.len() - i,
    {
        let c = &current[i];
        assert(current@.subrange(0, i + 1).drop_last() =~= current@.subrange(0, i as int));
        if find_name(desired, &c.name).is_none() {
            let op = ChannelOperation::Delete { id: c.id, name: c.name.clone() };
            proof {
                lemma_channel_changes_push(ops@, op);
            }
            ops.push(op);
        }
        i = i + 1;
    }
    assert(current@.subrange(0, current@.len() as int) =~= current@);
    let mut i: usize = 0;
    while i < desired.len()
        invariant
            i <= desired@.len(),
            desired_names_wf(desired@),
            channel_changes(ops@) == channel_deletions(current@, desired@) + channel_creations(
                desired@.subrange(0, i as int),
                current@,
            ),
        decreases desired@.len() - i,
    {
        let d = &desired[i];
        assert(desired@.subrange(0, i + 1).drop_last() =~= desired@.subrange(0, i as int));
        if find_channel(current, d).is_none() {
            let op = ChannelOperation::Create { name: d.clone(), position: i as u16 };
            proof {
                lemma_channel_changes_push(ops@, op);
            }
            ops.push(op);
        }
        i = i + 1;
    }
    assert(desired@.subrange(0, desired@.len() as int) =~= desired@);
    let mut i: usize = 0;
    while i < desired.len()
        invariant
            i <= desired@.len(),
            desired_names_wf(desired@),
            channel_names_distinct(current@),
            channel_changes(ops@) == channel_deletions(current@, desired@) + channel_creations(
                desired@,
                current@,
            ) + channel_updates(desired@.subrange(0, i as int), current@),
        decreases desired@.len() - i,
    {
        let d = &desired[i];
        assert(desired@.subrange(0, i + 1).drop_last() =~= desired@.subrange(0, i as int));
        match find_channel(current, d) {
            Some(j) => {
                proof {
                    lemma_channel_index(current@, j as int);
                }
                let c = &current[j];
                if c.position as usize != i {
                    let op = ChannelOperation::Update { id: c.id, name: d.clone(), position: i as u16 };
                    proof {
                        lemma_channel_changes_push(ops@, op);
                    }
                    ops.push(op);
                }
            },
            None => {},
        }
        i = i + 1;
    }
    assert(desired@.subrange(0, desired@.len() as int) =~= desired@);
    ops
}

/// Whether the differ may emit `c` for these two sides.
pub open spec fn channel_change_justified(current: Seq<FronterChannel>, desired: Seq<String>, c: ChannelChange) -> bool {
    match c {
        ChannelChange::Create { name, position } => {
            &&& has_name(desired, name)
            &&& !has_channel(current, name)
            &&& position == name_index(desired, name)
        },
        ChannelChange::Delete { id, name } => {
            &&& has_channel(current, name)
            &&& !has_name(desired, name)
            &&& channel_named(current, name).id == id
        },
        ChannelChange::Update { id, name, position } => {
            &&& has_channel(current, name)
            &&& has_name(desired, name)
            &&& channel_named(current, name).position != position
            &&& position == name_index(desired, name)
            &&& channel_named(current, name).id == id
        },
    }
}

/// Whether the channel named `n` has to change: it is on one side only, or it is not at
/// its index in `desired`.
pub open spec fn channel_needs_change(current: Seq<FronterChannel>, desired: Seq<String>, n: Seq<char>) -> bool {
    ||| has_channel(current, n) != has_name(desired, n)
    ||| (has_channel(current, n) && has_name(desired, n) && channel_named(current, n).position != name_index(
        desired,
        n,
    ))
}

pub open spec fn channel_change_names_distinct(cs: Seq<ChannelChange>) -> bool {
    forall|a: int, b: int|
        0 <= a < cs.len() && 0 <= b < cs.len() && a != b ==> channel_change_name(cs[a])
            != channel_change_name(cs[b])
}

proof fn lemma_channel_named_drop_last(s: Seq<FronterChannel>, n: Seq<char>)
    requires
        channel_names_distinct(s),
        s.len() > 0,
    ensures
        channel_names_distinct(s.drop_last()),
        has_channel(s.drop_last(), n) ==> has_channel(s, n) && channel_named(s.drop_last(), n)
            == channel_named(s, n) && n != s.last().name@,
        has_channel(s, n) == (has_channel(s.drop_last(), n) || n == s.last().name@),
{
    let t = s.drop_last();
    if has_channel(t, n) {
        let i = channel_index(t, n);
        assert(s[i] == t[i]);
        lemma_channel_index(s, i);
        lemma_channel_index(t, i);
    }
    if has_channel(s, n) && n != s.last().name@ {
        let i = channel_index(s, n);
        assert(t[i] == s[i]);
    }
    assert(has_channel(s, s.last().name@)) by {
        assert(s[s.len() - 1].name@ == s.last().name@);
    }
}

proof fn lemma_name_drop_last(s: Seq<String>, n: Seq<char>)
    requires
        names_distinct(s),
        s.len() > 0,
    ensures
        names_distinct(s.drop_last()),
        has_name(s.drop_last(), n) ==> has_name(s, n) && name_index(s.drop_last(), n) == name_index(s, n)
            && n != s.last()@,
        has_name(s, n) == (has_name(s.drop_last(), n) || n == s.last()@),
        has_name(s, s.last()@) && name_index(s, s.last()@) == s.len() - 1,
{
    let t = s.drop_last();
    if has_name(t, n) {
        let i = name_index(t, n);
        assert(s[i] == t[i]);
        lemma_name_index(s, i);
        lemma_name_index(t, i);
    }
    if has_name(s, n) && n != s.last()@ {
        let i = name_index(s, n);
        assert(t[i] == s[i]);
    }
    lemma_name_index(s, s.len() - 1);
}

proof fn lemma_channel_deletions(current: Seq<FronterChannel>, desired: Seq<String>)
    requires
        channel_names_distinct(current),
    ensures
        forall|k: int|
            0 <= k < channel_deletions(current, desired).len() ==> {
                let c = #[trigger] channel_deletions(current, desired)[k];
                c is Delete && channel_change_justified(current, desired, c)
            },
        forall|n: Seq<char>|
            has_channel(current, n) && !has_name(desired, n) ==> exists|k: int|
                0 <= k < channel_deletions(current, desired).len() && #[trigger] channel_change_name(
                    channel_deletions(current, desired)[k],
                ) == n,
        channel_change_names_distinct(channel_deletions(current, desired)),
    decreases current.len(),
{
    if current.len() > 0 {
        let t = current.drop_last();
        lemma_channel_deletions(t, desired);
        let rest = channel_deletions(t, desired);
        let ds = channel_deletions(current, desired);
        let c = current.last();
        assert forall|n: Seq<char>| true implies (has_channel(t, n) ==> has_channel(current, n) && channel_named(
            t,
            n,
        ) == channel_named(current, n) && n != c.name@) && (has_channel(current, n) == (has_channel(t, n)
            || n == c.name@)) by {
            lemma_channel_named_drop_last(current, n);
        }
        lemma_channel_index(current, current.len() - 1);
        assert forall|k: int| 0 <= k < ds.len() implies {
            let x = #[trigger] ds[k];
            x is Delete && channel_change_justified(current, desired, x)
        } by {
            if k < rest.len() {
                assert(ds[k] == rest[k]);
            }
        }
        assert forall|n: Seq<char>| has_channel(current, n) && !has_name(desired, n) implies exists|k: int|
            0 <= k < ds.len() && #[trigger] channel_change_name(ds[k]) == n by {
            if n == c.name@ {
                assert(channel_change_name(ds[ds.len() - 1]) == n);
            } else {
                let k = choose|k: int| 0 <= k < rest.len() && #[trigger] channel_change_name(rest[k]) == n;
                assert(ds[k] == rest[k]);
            }
        }
        assert forall|a: int, b: int| 0 <= a < ds.len() && 0 <= b < ds.len() && a != b implies channel_change_name(
            ds[a],
        ) != channel_change_name(ds[b]) by {
            if a < rest.len() {
                assert(ds[a] == rest[a]);
            }
            if b < rest.len() {
                assert(ds[b] == rest[b]);
            }
        }
    }
}

proof fn lemma_channel_creations(current: Seq<FronterChannel>, desired: Seq<String>)
    requires
        channel_names_distinct(current),
        desired_names_wf(desired),
    ensures
        forall|k: int|
            0 <= k < channel_creations(desired, current).len() ==> {
                let c = #[trigger] channel_creations(desired, current)[k];
                c is Create && channel_change_justified(current, desired, c)
            },
        forall|n: Seq<char>|
            has_name(desired, n) && !has_channel(current, n) ==> exists|k: int|
                0 <= k < channel_creations(desired, current).len() && #[trigger] channel_change_name(
                    channel_creations(desired, current)[k],
                ) == n,
        channel_change_names_distinct(channel_creations(desired, current)),
    decreases desired.len(),
{
    if desired.len() > 0 {
        let t = desired.drop_last();
        lemma_name_drop_last(desired, desired.last()@);
        lemma_channel_creations(current, t);
        let rest = channel_creations(t, current);
        let cs = channel_creations(desired, current);
        let d = desired.last();
        assert forall|n: Seq<char>| true implies (has_name(t, n) ==> has_name(desired, n) && name_index(t, n)
            == name_index(desired, n) && n != d@) && (has_name(desired, n) == (has_name(t, n) || n == d@)) by {
            lemma_name_drop_last(desired, n);
        }
        assert forall|k: int| 0 <= k < cs.len() implies {
            let x = #[trigger] cs[k];
            x is Create && channel_change_justified(current, desired, x)
        } by {
            if k < rest.len() {
                assert(cs[k] == rest[k]);
            }
        }
        assert forall|n: Seq<char>| has_name(desired, n) && !has_channel(current, n) implies exists|k: int|
            0 <= k < cs.len() && #[trigger] channel_change_name(cs[k]) == n by {
            if n == d@ {
                assert(channel_change_name(cs[cs.len() - 1]) == n);
            } else {
                let k = choose|k: int| 0 <= k < rest.len() && #[trigger] channel_change_name(rest[k]) == n;
                assert(cs[k] == rest[k]);
            }
        }
        assert forall|a: int, b: int| 0 <= a < cs.len() && 0 <= b < cs.len() && a != b implies channel_change_name(
            cs[a],
        ) != channel_change_name(cs[b]) by {
            if a < rest.len() {
                assert(cs[a] == rest[a]);
            }
            if b < rest.len() {
                assert(cs[b] == rest[b]);
            }
        }
    }
}

proof fn lemma_channel_updates(current: Seq<FronterChannel>, desired: Seq<String>)
    requires
        channel_names_distinct(current),
        desired_names_wf(desired),
    ensures
        forall|k: int|
            0 <= k < channel_updates(desired, current).len() ==> {
                let c = #[trigger] channel_updates(desired, current)[k];
                c is Update && channel_change_justified(current, desired, c)
            },
        forall|n: Seq<char>|
            has_name(desired, n) && has_channel(current, n) && channel_named(current, n).position
                != name_index(desired, n) ==> exists|k: int|
                0 <= k < channel_updates(desired, current).len() && #[trigger] channel_change_name(
                    channel_updates(desired, current)[k],
                ) == n,
        channel_change_names_distinct(channel_updates(desired, current)),
    decreases desired.len(),
{
    if desired.len() > 0 {
        let t = desired.drop_last();
        lemma_name_drop_last(desired, desired.last()@);
        lemma_channel_updates(current, t);
        let rest = channel_updates(t, current);
        let us = channel_updates(desired, current);
        let d = desired.last();
        assert forall|n: Seq<char>| true implies (has_name(t, n) ==> has_name(desired, n) && name_index(t, n)
            == name_index(desired, n) && n != d@) && (has_name(desired, n) == (has_name(t, n) || n == d@)) by {
            lemma_name_drop_last(desired, n);
        }
        assert forall|k: int| 0 <= k < us.len() implies {
            let x = #[trigger] us[k];
            x is Update && channel_change_justified(current, desired, x)
        } by {
            if k < rest.len() {
                assert(us[k] == rest[k]);
            }
        }
        assert forall|n: Seq<char>|
            has_name(desired, n) && has_channel(current, n) && channel_named(current, n).position
                != name_index(desired, n) implies exists|k: int|
            0 <= k < us.len() && #[trigger] channel_change_name(us[k]) == n by {
            if n == d@ {
                assert(channel_change_name(us[us.len() - 1]) == n);
            } else {
                let k = choose|k: int| 0 <= k < rest.len() && #[trigger] channel_change_name(rest[k]) == n;
                assert(us[k] == rest[k]);
            }
        }
        assert forall|a: int, b: int| 0 <= a < us.len() && 0 <= b < us.len() && a != b implies channel_change_name(
            us[a],
        ) != channel_change_name(us[b]) by {
            if a < rest.len() {
                assert(us[a] == rest[a]);
            }
            if b < rest.len() {
                assert(us[b] == rest[b]);
            }
        }
    }
}

/// Every change the differ emits is justified by the two sides, every channel that has to
/// change gets a change, and no channel gets two.
pub proof fn lemma_channel_ops_exact(current: Seq<FronterChannel>, desired: Seq<String>)
    requires
        channel_names_distinct(current),
        desired_names_wf(desired),
    ensures
        forall|k: int|
            0 <= k < channel_ops(current, desired).len() ==> channel_change_justified(
                current,
                desired,
                #[trigger] channel_ops(current, desired)[k],
            ),
        forall|n: Seq<char>|
            channel_needs_change(current, desired, n) ==> exists|k: int|
                0 <= k < channel_ops(current, desired).len() && #[trigger] channel_change_name(
                    channel_ops(current, desired)[k],
                ) == n,
        channel_change_names_distinct(channel_ops(current, desired)),
{
    lemma_channel_deletions(current, desired);
    lemma_channel_creations(current, desired);
    lemma_channel_updates(current, desired);
    let ds = channel_deletions(current, desired);
    let cs = channel_creations(desired, current);
    let us = channel_updates(desired, current);
    let ops = channel_ops(current, desired);
    assert forall|k: int| 0 <= k < ops.len() implies channel_change_justified(current, desired, #[trigger] ops[k]) by {
        if k < ds.len() {
            assert(ops[k] == ds[k]);
        } else if k < ds.len() + cs.len() {
            assert(ops[k] == cs[k - ds.len()]);
        } else {
            assert(ops[k] == us[k - ds.len() - cs.len()]);
        }
    }
    assert forall|n: Seq<char>| channel_needs_change(current, desired, n) implies exists|k: int|
        0 <= k < ops.len() && #[trigger] channel_change_name(ops[k]) == n by {
        if has_channel(current, n) && !has_name(desired, n) {
            let k = choose|k: int| 0 <= k < ds.len() && #[trigger] channel_change_name(ds[k]) == n;
            assert(ops[k] == ds[k]);
        } else if !has_channel(current, n) && has_name(desired, n) {
            let k = choose|k: int| 0 <= k < cs.len() && #[trigger] channel_change_name(cs[k]) == n;
            assert(ops[k + ds.len()] == cs[k]);
        } else {
            let k = choose|k: int| 0 <= k < us.len() && #[trigger] channel_change_name(us[k]) == n;
            assert(ops[k + ds.len() + cs.len()] == us[k]);
        }
    }
    assert forall|a: int, b: int| 0 <= a < ops.len() && 0 <= b < ops.len() && a != b implies channel_change_name(
        ops[a],
    ) != channel_change_name(ops[b]) by {
        if a < ds.len() {
            assert(ops[a] == ds[a]);
        } else if a < ds.len() + cs.len() {
            assert(ops[a] == cs[a - ds.len()]);
        } else {
            assert(ops[a] == us[a - ds.len() - cs.len()]);
        }
        if b < ds.len() {
            assert(ops[b] == ds[b]);
        } else if b < ds.len() + cs.len() {
            assert(ops[b] == cs[b - ds.len()]);
        } else {
            assert(ops[b] == us[b - ds.len() - cs.len()]);
        }
    }
}

/// Partition: creations are exactly the names only in `desired`, deletions exactly the names
/// only under the category, moves exactly the shared names not at their index. No name gets
/// two changes, and the names that get one are exactly those that need one.
pub proof fn lemma_channel_ops_partition(current: Seq<FronterChannel>, desired: Seq<String>)
    requires
        channel_names_distinct(current),
        desired_names_wf(desired),
    ensures
        forall|n: Seq<char>|
            (exists|k: int|
                0 <= k < channel_ops(current, desired).len() && channel_ops(current, desired)[k] is Create
                    && #[trigger] channel_change_name(channel_ops(current, desired)[k]) == n) <==> (has_name(
                desired,
                n,
            ) && !has_channel(current, n)),
        forall|n: Seq<char>|
            (exists|k: int|
                0 <= k < channel_ops(current, desired).len() && channel_ops(current, desired)[k] is Delete
                    && #[trigger] channel_change_name(channel_ops(current, desired)[k]) == n) <==> (
            has_channel(current, n) && !has_name(desired, n)),
        forall|n: Seq<char>|
            (exists|k: int|
                0 <= k < channel_ops(current, desired).len() && channel_ops(current, desired)[k] is Update
                    && #[trigger] channel_change_name(channel_ops(current, desired)[k]) == n) <==> (
            has_channel(current, n) && has_name(desired, n) && channel_named(current, n).position
                != name_index(desired, n)),
        channel_change_names_distinct(channel_ops(current, desired)),
        forall|n: Seq<char>|
            (exists|k: int|
                0 <= k < channel_ops(current, desired).len() && #[trigger] channel_change_name(
                    channel_ops(current, desired)[k],
                ) == n) <==> channel_needs_change(current, desired, n),
{
    lemma_channel_ops_exact(current, desired);
    let ops = channel_ops(current, desired);
    assert forall|n: Seq<char>|
        (exists|k: int| 0 <= k < ops.len() && #[trigger] channel_change_name(ops[k]) == n) implies channel_needs_change(
            current,
            desired,
            n,
        ) by {
        let k = choose|k: int| 0 <= k < ops.len() && #[trigger] channel_change_name(ops[k]) == n;
        assert(channel_change_justified(current, desired, ops[k]));
    }
    assert forall|n: Seq<char>| true implies {
        &&& (exists|k: int|
            0 <= k < ops.len() && ops[k] is Create && #[trigger] channel_change_name(ops[k]) == n) <==> (
        has_name(desired, n) && !has_channel(current, n))
        &&& (exists|k: int|
            0 <= k < ops.len() && ops[k] is Delete && #[trigger] channel_change_name(ops[k]) == n) <==> (
        has_channel(current, n) && !has_name(desired, n))
        &&& (exists|k: int|
            0 <= k < ops.len() && ops[k] is Update && #[trigger] channel_change_name(ops[k]) == n) <==> (
        has_channel(current, n) && has_name(desired, n) && channel_named(current, n).position != name_index(
            desired,
            n,
        ))
    } by {
        if exists|k: int| 0 <= k < ops.len() && #[trigger] channel_change_name(ops[k]) == n {
            let k = choose|k: int| 0 <= k < ops.len() && #[trigger] channel_change_name(ops[k]) == n;
            assert(channel_change_justified(current, desired, ops[k]));
            assert forall|j: int| 0 <= j < ops.len() && #[trigger] channel_change_name(ops[j]) == n implies j
                == k by {}
        } else {
            assert(!channel_needs_change(current, desired, n));
        }
    }
}

/// Positions follow the registry's order: every channel the differ creates or moves is put
/// at the index of its name in `desired`, whatever its position was before.
pub proof fn lemma_channel_positions(current: Seq<FronterChannel>, desired: Seq<String>)
    requires
        channel_names_distinct(current),
        desired_names_wf(desired),
    ensures
        forall|k: int|
            0 <= k < channel_ops(current, desired).len() ==> match #[trigger] channel_ops(current, desired)[k] {
                ChannelChange::Create { name, position } => position < desired.len() && desired[position as int]@
                    == name,
                ChannelChange::Update { name, position, .. } => position < desired.len()
                    && desired[position as int]@ == name,
                ChannelChange::Delete { .. } => true,
            },
{
    lemma_channel_ops_exact(current, desired);
    let ops = channel_ops(current, desired);
    assert forall|k: int| 0 <= k < ops.len() implies match #[trigger] ops[k] {
        ChannelChange::Create { name, position } => position < desired.len() && desired[position as int]@ == name,
        ChannelChange::Update { name, position, .. } => position < desired.len() && desired[position as int]@
            == name,
        ChannelChange::Delete { .. } => true,
    } by {
        assert(channel_change_justified(current, desired, ops[k]));
        let n = channel_change_name(ops[k]);
        if has_name(desired, n) {
            let i = name_index(desired, n);
            assert(0 <= i < desired.len() && desired[i]@ == n);
        }
    }
}

/// The channels as a table from name to position.
pub open spec fn channel_table(s: Seq<FronterChannel>) -> Map<Seq<char>, u16> {
    Map::new(|n: Seq<char>| has_channel(s, n), |n: Seq<char>| channel_named(s, n).position)
}

/// The registry list as a table from name to index.
pub open spec fn desired_table(s: Seq<String>) -> Map<Seq<char>, u16> {
    Map::new(|n: Seq<char>| has_name(s, n), |n: Seq<char>| name_index(s, n) as u16)
}

/// The table after one change has been carried out.
pub open spec fn apply_channel_change(m: Map<Seq<char>, u16>, c: ChannelChange) -> Map<Seq<char>, u16> {
    match c {
        ChannelChange::Create { name, position } => m.insert(name, position),
        ChannelChange::Delete { name, .. } => m.remove(name),
        ChannelChange::Update { name, position, .. } => m.insert(name, position),
    }
}

/// The table after every change of `cs` has been carried out, in order.
pub open spec fn apply_channel_changes(m: Map<Seq<char>, u16>, cs: Seq<ChannelChange>) -> Map<Seq<char>, u16>
    decreases cs.len(),
{
    if cs.len() == 0 {
        m
    } else {
        apply_channel_change(apply_channel_changes(m, cs.drop_last()), cs.last())
    }
}

proof fn lemma_apply_channel_untouched(m: Map<Seq<char>, u16>, cs: Seq<ChannelChange>, n: Seq<char>)
    requires
        forall|k: int| 0 <= k < cs.len() ==> #[trigger] channel_change_name(cs[k]) != n,
    ensures
        apply_channel_changes(m, cs).contains_key(n) == m.contains_key(n),
        m.contains_key(n) ==> apply_channel_changes(m, cs)[n] == m[n],
    decreases cs.len(),
{
    if cs.len() > 0 {
        let t = cs.drop_last();
        assert forall|k: int| 0 <= k < t.len() implies #[trigger] channel_change_name(t[k]) != n by {
            assert(t[k] == cs[k]);
            assert(channel_change_name(cs[k]) != n);
        }
        lemma_apply_channel_untouched(m, t, n);
        assert(channel_change_name(cs[cs.len() - 1]) != n);
    }
}

proof fn lemma_apply_channel_changes(m: Map<Seq<char>, u16>, cs: Seq<ChannelChange>, k: int)
    requires
        channel_change_names_distinct(cs),
        0 <= k < cs.len(),
    ensures
        match cs[k] {
            ChannelChange::Delete { name, .. } => !apply_channel_changes(m, cs).contains_key(name),
            ChannelChange::Create { name, position } => apply_channel_changes(m, cs).contains_key(name)
                && apply_channel_changes(m, cs)[name] == position,
            ChannelChange::Update { name, position, .. } => apply_channel_changes(m, cs).contains_key(name)
                && apply_channel_changes(m, cs)[name] == position,
        },
    decreases cs.len(),
{
    let t = cs.drop_last();
    if k < t.len() {
        assert forall|a: int, b: int| 0 <= a < t.len() && 0 <= b < t.len() && a != b implies channel_change_name(
            t[a],
        ) != channel_change_name(t[b]) by {
            assert(t[a] == cs[a] && t[b] == cs[b]);
        }
        lemma_apply_channel_changes(m, t, k);
        assert(t[k] == cs[k]);
        assert(channel_change_name(cs[k]) != channel_change_name(cs[cs.len() - 1]));
    }
}

proof fn lemma_channel_reach_point(current: Seq<FronterChannel>, desired: Seq<String>, n: Seq<char>)
    requires
        channel_names_distinct(current),
        desired_names_wf(desired),
    ensures
        ({
            let r = apply_channel_changes(channel_table(current), channel_ops(current, desired));
            let d = desired_table(desired);
            r.contains_key(n) == d.contains_key(n) && (d.contains_key(n) ==> r[n] == d[n])
        }),
{
    lemma_channel_ops_exact(current, desired);
    let ops = channel_ops(current, desired);
    let m = channel_table(current);
    if has_name(desired, n) {
        let i = name_index(desired, n);
        assert(0 <= i < desired.len());
    }
    if channel_needs_change(current, desired, n) {
        let k = choose|k: int| 0 <= k < ops.len() && #[trigger] channel_change_name(ops[k]) == n;
        assert(channel_change_justified(current, desired, ops[k]));
        lemma_apply_channel_changes(m, ops, k);
    } else {
        assert forall|k: int| 0 <= k < ops.len() implies #[trigger] channel_change_name(ops[k]) != n by {
            if channel_change_name(ops[k]) == n {
                assert(channel_change_justified(current, desired, ops[k]));
            }
        }
        lemma_apply_channel_untouched(m, ops, n);
    }
}

/// Carrying out every change of the differ leaves each listed name at its index and no
/// other channel under the category.
pub proof fn lemma_channel_ops_reach_desired(current: Seq<FronterChannel>, desired: Seq<String>)
    requires
        channel_names_distinct(current),
        desired_names_wf(desired),
    ensures
        apply_channel_changes(channel_table(current), channel_ops(current, desired)) == desired_table(desired),
{
    let r = apply_channel_changes(channel_table(current), channel_ops(current, desired));
    let d = desired_table(desired);
    assert(r.dom() =~= d.dom()) by {
        assert forall|n: Seq<char>| #[trigger] r.dom().contains(n) == d.dom().contains(n) by {
            lemma_channel_reach_point(current, desired, n);
        }
    }
    assert forall|n: Seq<char>| #[trigger] r.dom().contains(n) implies r[n] == d[n] by {
        lemma_channel_reach_point(current, desired, n);
    }
    assert(r =~= d);
}

/// Idempotence: once every change of a run has been carried out, a second run against the
/// same registry list finds nothing to do.
pub proof fn lemma_channel_ops_idempotent(
    current: Seq<FronterChannel>,
    desired: Seq<String>,
    after: Seq<FronterChannel>,
)
    requires
        channel_names_distinct(current),
        desired_names_wf(desired),
        channel_names_distinct(after),
        channel_table(after) == apply_channel_changes(channel_table(current), channel_ops(current, desired)),
    ensures
        channel_ops(after, desired) == Seq::<ChannelChange>::empty(),
{
    lemma_channel_ops_reach_desired(current, desired);
    lemma_channel_ops_exact(after, desired);
    let ops = channel_ops(after, desired);
    if ops.len() > 0 {
        let n = channel_change_name(ops[0]);
        assert(channel_change_justified(after, desired, ops[0]));
        assert(channel_table(after).contains_key(n) == has_channel(after, n));
        assert(desired_table(desired).contains_key(n) == has_name(desired, n));
        if has_channel(after, n) && has_name(desired, n) {
            let i = name_index(desired, n);
            assert(0 <= i < desired.len());
            assert(channel_table(after)[n] == channel_named(after, n).position);
            assert(desired_table(desired)[n] == name_index(desired, n) as u16);
        }
        assert(false);
    }
    assert(ops =~= Seq::<ChannelChange>::empty());
}

/// Rank of a change in the order they are carried out: deletions, creations, updates.
pub open spec fn channel_change_rank(c: ChannelChange) -> int {
    match c {
        ChannelChange::Delete { .. } => 0,
        ChannelChange::Create { .. } => 1,
        ChannelChange::Update { .. } => 2,
    }
}

/// The differ lists every deletion before any creation, and every creation before any update.
pub proof fn lemma_channel_ops_order(current: Seq<FronterChannel>, desired: Seq<String>)
    requires
        channel_names_distinct(current),
        desired_names_wf(desired),
    ensures
        forall|a: int, b: int|
            0 <= a < b < channel_ops(current, desired).len() ==> channel_change_rank(channel_ops(current, desired)[a])
                <= channel_change_rank(channel_ops(current, desired)[b]),
{
    lemma_channel_deletions(current, desired);
    lemma_channel_creations(current, desired);
    lemma_channel_updates(current, desired);
    let ds = channel_deletions(current, desired);
    let cs = channel_creations(desired, current);
    let us = channel_updates(desired, current);
    let ops = channel_ops(current, desired);
    assert forall|k: int| 0 <= k < ops.len() implies channel_change_rank(#[trigger] ops[k]) == if k < ds.len() {
        0int
    } else if k < ds.len() + cs.len() {
        1int
    } else {
        2int
    } by {
        if k < ds.len() {
            assert(ops[k] == ds[k]);
        } else if k < ds.len() + cs.len() {
            assert(ops[k] == cs[k - ds.len()]);
        } else {
            assert(ops[k] == us[k - ds.len() - cs.len()]);
        }
    }
}

} // verus!
