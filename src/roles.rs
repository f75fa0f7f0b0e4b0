//! Role tags: the differ between the roles on the platform and the roles the
//! registry asks for.
use crate::summary::OpKind;
use vstd::prelude::*;

verus! {

/// A role tag, keyed by its name. `id` is absent until the platform created it.
#[derive(Debug, Clone, PartialEq, Eq)]
pub struct MemberRole {
    pub id: Option<u64>,
    pub name: String,
    pub color: u32,
}

/// One change to the platform's role list.
#[derive(Debug, Clone, PartialEq, Eq)]
pub enum ChangeOperation {
    Create { name: String, color: u32 },
    Delete { id: u64, name: String },
    Update { id: u64, name: String, color: u32 },
}

/// Abstract form of a `ChangeOperation`.
pub enum RoleChange {
    Create { name: Seq<char>, color: u32 },
    Delete { id: u64, name: Seq<char> },
    Update { id: u64, name: Seq<char>, color: u32 },
}

impl View for ChangeOperation {
    type V = RoleChange;

    open spec fn view(&self) -> RoleChange {
        match self {
            ChangeOperation::Create { name, color } => RoleChange::Create { name: name@, color: *color },
            ChangeOperation::Delete { id, name } => RoleChange::Delete { id: *id, name: name@ },
            ChangeOperation::Update { id, name, color } => RoleChange::Update {
                id: *id,
                name: name@,
                color: *color,
            },
        }
    }
}

pub open spec fn role_changes(ops: Seq<ChangeOperation>) -> Seq<RoleChange> {
    ops.map_values(|o: ChangeOperation| o@)
}

pub open spec fn change_name(c: RoleChange) -> Seq<char> {
    match c {
        RoleChange::Create { name, .. } => name,
        RoleChange::Delete { name, .. } => name,
        RoleChange::Update { name, .. } => name,
    }
}

pub open spec fn role_change_kind(c: RoleChange) -> OpKind {
    match c {
        RoleChange::Create { .. } => OpKind::Create,
        RoleChange::Delete { .. } => OpKind::Delete,
        RoleChange::Update { .. } => OpKind::Update,
    }
}

impl ChangeOperation {
    pub fn kind(&self) -> (r: OpKind)
        ensures
            r == role_change_kind(self@),
    {
        match self {
            ChangeOperation::Create { .. } => OpKind::Create,
            ChangeOperation::Delete { .. } => OpKind::Delete,
            ChangeOperation::Update { .. } => OpKind::Update,
        }
    }
}

pub open spec fn has_role(s: Seq<MemberRole>, n: Seq<char>) -> bool {
    exists|i: int| 0 <= i < s.len() && #[trigger] s[i].name@ == n
}

pub open spec fn role_names_distinct(s: Seq<MemberRole>) -> bool {
    forall|i: int, j: int| 0 <= i < s.len() && 0 <= j < s.len() && i != j ==> s[i].name@ != s[j].name@
}

/// A role set read from the platform: one entry per name, each with its identifier.
pub open spec fn current_roles_wf(s: Seq<MemberRole>) -> bool {
    &&& role_names_distinct(s)
    &&& forall|i: int| 0 <= i < s.len() ==> (#[trigger] s[i]).id is Some
}

pub open spec fn role_index(s: Seq<MemberRole>, n: Seq<char>) -> int {
    choose|i: int| 0 <= i < s.len() && #[trigger] s[i].name@ == n
}

/// The entry named `n` (meaningful where `has_role(s, n)`).
pub open spec fn role_named(s: Seq<MemberRole>, n: Seq<char>) -> MemberRole {
    s[role_index(s, n)]
}

/// Deletions, in the order of `current`.
pub open spec fn role_deletions(current: Seq<MemberRole>, desired: Seq<MemberRole>) -> Seq<RoleChange>
    decreases current.len(),
{
    if current.len() == 0 {
        seq![]
    } else {
        let rest = role_deletions(current.drop_last(), desired);
        let c = current.last();
        if has_role(desired, c.name@) {
            rest
        } else {
            rest.push(RoleChange::Delete { id: c.id->Some_0, name: c.name@ })
        }
    }
}

/// Creations, in the order of `desired`.
pub open spec fn role_creations(desired: Seq<MemberRole>, current: Seq<MemberRole>) -> Seq<RoleChange>
    decreases desired.len(),
{
    if desired.len() == 0 {
        seq![]
    } else {
        let rest = role_creations(desired.drop_last(), current);
        let d = desired.last();
        if has_role(current, d.name@) {
            rest
        } else {
            rest.push(RoleChange::Create { name: d.name@, color: d.color })
        }
    }
}

/// Colour updates, in the order of `desired`.
pub open spec fn role_updates(desired: Seq<MemberRole>, current: Seq<MemberRole>) -> Seq<RoleChange>
    decreases desired.len(),
{
    if desired.len() == 0 {
        seq![]
    } else {
        let rest = role_updates(desired.drop_last(), current);
        let d = desired.last();
        if has_role(current, d.name@) && role_named(current, d.name@).color != d.color {
            let c = role_named(current, d.name@);
            rest.push(RoleChange::Update { id: c.id->Some_0, name: d.name@, color: d.color })
        } else {
            rest
        }
    }
}

/// What the differ produces: every deletion, then every creation, then every update.
pub open spec fn role_ops(current: Seq<MemberRole>, desired: Seq<MemberRole>) -> Seq<RoleChange> {
    role_deletions(current, desired) + role_creations(desired, current) + role_updates(desired, current)
}

/// Position of the role named `name` in `roles`, if any.
pub fn find_role(roles: &Vec<MemberRole>, name: &String) -> (r: Option<usize>)
    ensures
        match r {
            Some(i) => i < roles@.len() && roles@[i as int].name@ == name@,
            None => !has_role(roles@, name@),
        },
{
    let mut i: usize = 0;
    while i < roles.len()
        invariant
            i <= roles@.len(),
            forall|j: int| 0 <= j < i ==> roles@[j].name@ != name@,
        decreases roles@.len() - i,
    {
        if roles[i].name == *name {
            return Some(i);
        }
        i = i + 1;
    }
    None
}

pub proof fn lemma_role_index(s: Seq<MemberRole>, i: int)
    requires
        role_names_distinct(s),
        0 <= i < s.len(),
    ensures
        has_role(s, s[i].name@),
        role_index(s, s[i].name@) == i,
{
    assert(has_role(s, s[i].name@));
    let j = role_index(s, s[i].name@);
    assert(s[j].name@ == s[i].name@);
}

proof fn lemma_role_changes_push(ops: Seq<ChangeOperation>, o: ChangeOperation)
    ensures
        role_changes(ops.push(o)) == role_changes(ops).push(o@),
{
    assert(role_changes(ops.push(o)) =~= role_changes(ops).push(o@));
}

/// Computes the changes that turn the `current` role set into the `desired` one.
pub fn get_ops(current: &Vec<MemberRole>, desired: &Vec<MemberRole>) -> (ops: Vec<ChangeOperation>)
    requires
        current_roles_wf(current@),
        role_names_distinct(desired@),
    ensures
        role_changes(ops@) == role_ops(current@, desired@),
{
    let mut ops: Vec<ChangeOperation> = Vec::new();
    let mut i: usize = 0;
    while i < current.len()
        invariant
            i <= current@.len(),
            current_roles_wf(current@),
            role_changes(ops@) == role_deletions(current@.subrange(0, i as int), desired@),
        decreases current@.len() - i,
    {
        let c = &current[i];
        assert(current@.subrange(0, i + 1).drop_last() =~= current@.subrange(0, i as int));
        if find_role(desired, &c.name).is_none() {
            assert(c.id is Some);
            let id = c.id.unwrap();
            let op = ChangeOperation::Delete { id, name: c.name.clone() };
            proof {
                lemma_role_changes_push(ops@, op);
            }
            ops.push(op);
        }
        i = i + 1;
    }
    assert(current@.subrange(0, current@.len() as int) =~= current@);
    let mut i: usize = 0;
    while i < desired.len()
        invariant
            i <= desired@.len(),
            role_changes(ops@) == role_deletions(current@, desired@) + role_creations(
                desired@.subrange(0, i as int),
                current@,
            ),
        decreases desired@.len() - i,
    {
        let d = &desired[i];
        assert(desired@.subrange(0, i + 1).drop_last() =~= desired@.subrange(0, i as int));
        if find_role(current, &d.name).is_none() {
            let op = ChangeOperation::Create { name: d.name.clone(), color: d.color };
            proof {
                lemma_role_changes_push(ops@, op);
            }
            ops.push(op);
        }
        i = i + 1;
    }
    assert(desired@.subrange(0, desired@.len() as int) =~= desired@);
    let mut i: usize = 0;
    while i < desired.len()
        invariant
            i <= desired@.len(),
            current_roles_wf(current@),
            role_changes(ops@) == role_deletions(current@, desired@) + role_creations(desired@, current@)
                + role_updates(desired@.subrange(0, i as int), current@),
        decreases desired@.len() - i,
    {
        let d = &desired[i];
        assert(desired@.subrange(0, i + 1).drop_last() =~= desired@.subrange(0, i as int));
        match find_role(current, &d.name) {
            Some(j) => {
                proof {
                    lemma_role_index(current@, j as int);
                }
                let c = &current[j];
                if c.color != d.color {
                    assert(c.id is Some);
                    let op = ChangeOperation::Update { id: c.id.unwrap(), name: d.name.clone(), color: d.color };
                    proof {
                        lemma_role_changes_push(ops@, op);
                    }
                    ops.push(op);
                }
            },
            None => {},
        }
        i = i + 1;
    }
    assert(desired@.subrange(0, desired@.len() as int) =~= desired@);
    ops
}

/// Whether the differ may emit `c` for these two sets.
pub open spec fn role_change_justified(current: Seq<MemberRole>, desired: Seq<MemberRole>, c: RoleChange) -> bool {
    match c {
        RoleChange::Create { name, color } => {
            &&& has_role(desired, name)
            &&& !has_role(current, name)
            &&& color == role_named(desired, name).color
        },
        RoleChange::Delete { id, name } => {
            &&& has_role(current, name)
            &&& !has_role(desired, name)
            &&& role_named(current, name).id == Some(id)
        },
        RoleChange::Update { id, name, color } => {
            &&& has_role(current, name)
            &&& has_role(desired, name)
            &&& role_named(current, name).color != color
            &&& color == role_named(desired, name).color
            &&& role_named(current, name).id == Some(id)
        },
    }
}

/// Whether the role named `n` has to change: it is on one side only, or its colour differs.
pub open spec fn role_needs_change(current: Seq<MemberRole>, desired: Seq<MemberRole>, n: Seq<char>) -> bool {
    ||| has_role(current, n) != has_role(desired, n)
    ||| (has_role(current, n) && has_role(desired, n) && role_named(current, n).color != role_named(
        desired,
        n,
    ).color)
}

pub open spec fn change_names_distinct(cs: Seq<RoleChange>) -> bool {
    forall|a: int, b: int|
        0 <= a < cs.len() && 0 <= b < cs.len() && a != b ==> change_name(cs[a]) != change_name(cs[b])
}

proof fn lemma_named_drop_last(s: Seq<MemberRole>, n: Seq<char>)
    requires
        role_names_distinct(s),
        s.len() > 0,
    ensures
        role_names_distinct(s.drop_last()),
        has_role(s.drop_last(), n) ==> has_role(s, n) && role_named(s.drop_last(), n) == role_named(s, n),
        has_role(s.drop_last(), n) ==> n != s.last().name@,
        has_role(s, n) && n != s.last().name@ ==> has_role(s.drop_last(), n),
        has_role(s, n) == (has_role(s.drop_last(), n) || n == s.last().name@),
{
    let t = s.drop_last();
    if has_role(t, n) {
        let i = role_index(t, n);
        assert(s[i] == t[i]);
        lemma_role_index(s, i);
        lemma_role_index(t, i);
    }
    if has_role(s, n) && n != s.last().name@ {
        let i = role_index(s, n);
        assert(t[i] == s[i]);
    }
    assert(has_role(s, s.last().name@)) by {
        assert(s[s.len() - 1].name@ == s.last().name@);
    }
}

proof fn lemma_role_deletions(current: Seq<MemberRole>, desired: Seq<MemberRole>)
    requires
        current_roles_wf(current),
    ensures
        forall|k: int|
            0 <= k < role_deletions(current, desired).len() ==> {
                let c = #[trigger] role_deletions(current, desired)[k];
                c is Delete && role_change_justified(current, desired, c)
            },
        forall|n: Seq<char>|
            has_role(current, n) && !has_role(desired, n) ==> exists|k: int|
                0 <= k < role_deletions(current, desired).len() && #[trigger] change_name(
                    role_deletions(current, desired)[k],
                ) == n,
        change_names_distinct(role_deletions(current, desired)),
    decreases current.len(),
{
    if current.len() > 0 {
        let t = current.drop_last();
        assert forall|i: int| 0 <= i < t.len() implies (#[trigger] t[i]).id is Some by {
            assert(t[i] == current[i]);
        }
        lemma_role_deletions(t, desired);
        let rest = role_deletions(t, desired);
        let ds = role_deletions(current, desired);
        let c = current.last();
        assert forall|n: Seq<char>| true implies (has_role(t, n) ==> has_role(current, n) && role_named(t, n)
            == role_named(current, n) && n != c.name@) && (has_role(current, n) == (has_role(t, n) || n
            == c.name@)) by {
            lemma_named_drop_last(current, n);
        }
        lemma_role_index(current, current.len() - 1);
        assert forall|k: int| 0 <= k < ds.len() implies {
            let x = #[trigger] ds[k];
            x is Delete && role_change_justified(current, desired, x)
        } by {
            if k < rest.len() {
                assert(ds[k] == rest[k]);
            }
        }
        assert forall|n: Seq<char>| has_role(current, n) && !has_role(desired, n) implies exists|k: int|
            0 <= k < ds.len() && #[trigger] change_name(ds[k]) == n by {
            if n == c.name@ {
                assert(change_name(ds[ds.len() - 1]) == n);
            } else {
                let k = choose|k: int| 0 <= k < rest.len() && #[trigger] change_name(rest[k]) == n;
                assert(ds[k] == rest[k]);
            }
        }
        assert forall|a: int, b: int| 0 <= a < ds.len() && 0 <= b < ds.len() && a != b implies change_name(
            ds[a],
        ) != change_name(ds[b]) by {
            if a < rest.len() {
                assert(ds[a] == rest[a]);
            }
            if b < rest.len() {
                assert(ds[b] == rest[b]);
            }
        }
    }
}

proof fn lemma_role_creations(current: Seq<MemberRole>, desired: Seq<MemberRole>)
    requires
        current_roles_wf(current),
        role_names_distinct(desired),
    ensures
        forall|k: int|
            0 <= k < role_creations(desired, current).len() ==> {
                let c = #[trigger] role_creations(desired, current)[k];
                c is Create && role_change_justified(current, desired, c)
            },
        forall|n: Seq<char>|
            has_role(desired, n) && !has_role(current, n) ==> exists|k: int|
                0 <= k < role_creations(desired, current).len() && #[trigger] change_name(
                    role_creations(desired, current)[k],
                ) == n,
        change_names_distinct(role_creations(desired, current)),
    decreases desired.len(),
{
    if desired.len() > 0 {
        let t = desired.drop_last();
        lemma_role_creations(current, t);
        let rest = role_creations(t, current);
        let cs = role_creations(desired, current);
        let d = desired.last();
        assert forall|n: Seq<char>| true implies (has_role(t, n) ==> has_role(desired, n) && role_named(t, n)
            == role_named(desired, n) && n != d.name@) && (has_role(desired, n) == (has_role(t, n) || n
            == d.name@)) by {
            lemma_named_drop_last(desired, n);
        }
        lemma_role_index(desired, desired.len() - 1);
        assert forall|k: int| 0 <= k < cs.len() implies {
            let x = #[trigger] cs[k];
            x is Create && role_change_justified(current, desired, x)
        } by {
            if k < rest.len() {
                assert(cs[k] == rest[k]);
            }
        }
        assert forall|n: Seq<char>| has_role(desired, n) && !has_role(current, n) implies exists|k: int|
            0 <= k < cs.len() && #[trigger] change_name(cs[k]) == n by {
            if n == d.name@ {
                assert(change_name(cs[cs.len() - 1]) == n);
            } else {
                let k = choose|k: int| 0 <= k < rest.len() && #[trigger] change_name(rest[k]) == n;
                assert(cs[k] == rest[k]);
            }
        }
        assert forall|a: int, b: int| 0 <= a < cs.len() && 0 <= b < cs.len() && a != b implies change_name(
            cs[a],
        ) != change_name(cs[b]) by {
            if a < rest.len() {
                assert(cs[a] == rest[a]);
            }
            if b < rest.len() {
                assert(cs[b] == rest[b]);
            }
        }
    }
}

proof fn lemma_role_updates(current: Seq<MemberRole>, desired: Seq<MemberRole>)
    requires
        current_roles_wf(current),
        role_names_distinct(desired),
    ensures
        forall|k: int|
            0 <= k < role_updates(desired, current).len() ==> {
                let c = #[trigger] role_updates(desired, current)[k];
                c is Update && role_change_justified(current, desired, c)
            },
        forall|n: Seq<char>|
            has_role(desired, n) && has_role(current, n) && role_named(current, n).color != role_named(
                desired,
                n,
            ).color ==> exists|k: int|
                0 <= k < role_updates(desired, current).len() && #[trigger] change_name(
                    role_updates(desired, current)[k],
                ) == n,
        change_names_distinct(role_updates(desired, current)),
    decreases desired.len(),
{
    if desired.len() > 0 {
        let t = desired.drop_last();
        lemma_role_updates(current, t);
        let rest = role_updates(t, current);
        let us = role_updates(desired, current);
        let d = desired.last();
        assert forall|n: Seq<char>| true implies (has_role(t, n) ==> has_role(desired, n) && role_named(t, n)
            == role_named(desired, n) && n != d.name@) && (has_role(desired, n) == (has_role(t, n) || n
            == d.name@)) by {
            lemma_named_drop_last(desired, n);
        }
        lemma_role_index(desired, desired.len() - 1);
        if has_role(current, d.name@) {
            lemma_role_index(current, role_index(current, d.name@));
        }
        assert forall|k: int| 0 <= k < us.len() implies {
            let x = #[trigger] us[k];
            x is Update && role_change_justified(current, desired, x)
        } by {
            if k < rest.len() {
                assert(us[k] == rest[k]);
            }
        }
        assert forall|n: Seq<char>|
            has_role(desired, n) && has_role(current, n) && role_named(current, n).color != role_named(
                desired,
                n,
            ).color implies exists|k: int| 0 <= k < us.len() && #[trigger] change_name(us[k]) == n by {
            if n == d.name@ {
                assert(change_name(us[us.len() - 1]) == n);
            } else {
                let k = choose|k: int| 0 <= k < rest.len() && #[trigger] change_name(rest[k]) == n;
                assert(us[k] == rest[k]);
            }
        }
        assert forall|a: int, b: int| 0 <= a < us.len() && 0 <= b < us.len() && a != b implies change_name(
            us[a],
        ) != change_name(us[b]) by {
            if a < rest.len() {
                assert(us[a] == rest[a]);
            }
            if b < rest.len() {
                assert(us[b] == rest[b]);
            }
        }
    }
}

/// Every change the differ emits is justified by the two sets, every role that has to
/// change gets a change, and no role gets two.
pub proof fn lemma_role_ops_exact(current: Seq<MemberRole>, desired: Seq<MemberRole>)
    requires
        current_roles_wf(current),
        role_names_distinct(desired),
    ensures
        forall|k: int|
            0 <= k < role_ops(current, desired).len() ==> role_change_justified(
                current,
                desired,
                #[trigger] role_ops(current, desired)[k],
            ),
        forall|n: Seq<char>|
            role_needs_change(current, desired, n) ==> exists|k: int|
                0 <= k < role_ops(current, desired).len() && #[trigger] change_name(
                    role_ops(current, desired)[k],
                ) == n,
        change_names_distinct(role_ops(current, desired)),
{
    lemma_role_deletions(current, desired);
    lemma_role_creations(current, desired);
    lemma_role_updates(current, desired);
    let ds = role_deletions(current, desired);
    let cs = role_creations(desired, current);
    let us = role_updates(desired, current);
    let ops = role_ops(current, desired);
    assert forall|k: int| 0 <= k < ops.len() implies role_change_justified(current, desired, #[trigger] ops[k])
        && (k < ds.len() ==> ops[k] == ds[k]) && (ds.len() <= k < ds.len() + cs.len() ==> ops[k] == cs[k
        - ds.len()]) && (ds.len() + cs.len() <= k ==> ops[k] == us[k - ds.len() - cs.len()]) by {
        if k < ds.len() {
            assert(ops[k] == ds[k]);
        } else if k < ds.len() + cs.len() {
            assert(ops[k] == cs[k - ds.len()]);
        } else {
            assert(ops[k] == us[k - ds.len() - cs.len()]);
        }
    }
    assert forall|n: Seq<char>| role_needs_change(current, desired, n) implies exists|k: int|
        0 <= k < ops.len() && #[trigger] change_name(ops[k]) == n by {
        if has_role(current, n) && !has_role(desired, n) {
            let k = choose|k: int| 0 <= k < ds.len() && #[trigger] change_name(ds[k]) == n;
            assert(ops[k] == ds[k]);
        } else if !has_role(current, n) && has_role(desired, n) {
            let k = choose|k: int| 0 <= k < cs.len() && #[trigger] change_name(cs[k]) == n;
            assert(ops[k + ds.len()] == cs[k]);
        } else {
            let k = choose|k: int| 0 <= k < us.len() && #[trigger] change_name(us[k]) == n;
            assert(ops[k + ds.len() + cs.len()] == us[k]);
        }
    }
    assert forall|a: int, b: int| 0 <= a < ops.len() && 0 <= b < ops.len() && a != b implies change_name(
        ops[a],
    ) != change_name(ops[b]) by {
        if a < ds.len() {
            assert(ops[a] == ds[a]);
        } else if a < ds.len() + cs.len() {
            assert(ops[a] == cs[a - ds.len()]);
        } else {
            assert(ops[a] == us[a - ds.len() - cs.len()]);
        }
        if b < ds.len() {
            assert(ops[b] == ds[b]);
        } else if b < ds.len() + cs.len() {
            assert(ops[b] == cs[b - ds.len()]);
        } else {
            assert(ops[b] == us[b - ds.len() - cs.len()]);
        }
    }
}

/// Partition: creations are exactly the names only in `desired`, deletions exactly the names
/// only in `current`, updates exactly the shared names whose colour differs. No name gets two
/// changes, and the names that get one are exactly those that need one; every other name of
/// either side is on both sides with the same colour.
pub proof fn lemma_role_ops_partition(current: Seq<MemberRole>, desired: Seq<MemberRole>)
    requires
        current_roles_wf(current),
        role_names_distinct(desired),
    ensures
        forall|n: Seq<char>|
            (exists|k: int|
                0 <= k < role_ops(current, desired).len() && role_ops(current, desired)[k] is Create
                    && #[trigger] change_name(role_ops(current, desired)[k]) == n) <==> (has_role(desired, n)
                && !has_role(current, n)),
        forall|n: Seq<char>|
            (exists|k: int|
                0 <= k < role_ops(current, desired).len() && role_ops(current, desired)[k] is Delete
                    && #[trigger] change_name(role_ops(current, desired)[k]) == n) <==> (has_role(current, n)
                && !has_role(desired, n)),
        forall|n: Seq<char>|
            (exists|k: int|
                0 <= k < role_ops(current, desired).len() && role_ops(current, desired)[k] is Update
                    && #[trigger] change_name(role_ops(current, desired)[k]) == n) <==> (has_role(current, n)
                && has_role(desired, n) && role_named(current, n).color != role_named(desired, n).color),
        change_names_distinct(role_ops(current, desired)),
        forall|n: Seq<char>|
            (exists|k: int|
                0 <= k < role_ops(current, desired).len() && #[trigger] change_name(
                    role_ops(current, desired)[k],
                ) == n) <==> role_needs_change(current, desired, n),
{
    lemma_role_ops_exact(current, desired);
    let ops = role_ops(current, desired);
    assert forall|n: Seq<char>|
        (exists|k: int| 0 <= k < ops.len() && #[trigger] change_name(ops[k]) == n) implies role_needs_change(
            current,
            desired,
            n,
        ) by {
        let k = choose|k: int| 0 <= k < ops.len() && #[trigger] change_name(ops[k]) == n;
        assert(role_change_justified(current, desired, ops[k]));
    }
    assert forall|n: Seq<char>| true implies {
        &&& (exists|k: int| 0 <= k < ops.len() && ops[k] is Create && #[trigger] change_name(ops[k]) == n)
            <==> (has_role(desired, n) && !has_role(current, n))
        &&& (exists|k: int| 0 <= k < ops.len() && ops[k] is Delete && #[trigger] change_name(ops[k]) == n)
            <==> (has_role(current, n) && !has_role(desired, n))
        &&& (exists|k: int| 0 <= k < ops.len() && ops[k] is Update && #[trigger] change_name(ops[k]) == n)
            <==> (has_role(current, n) && has_role(desired, n) && role_named(current, n).color != role_named(
            desired,
            n,
        ).color)
    } by {
        if exists|k: int| 0 <= k < ops.len() && #[trigger] change_name(ops[k]) == n {
            let k = choose|k: int| 0 <= k < ops.len() && #[trigger] change_name(ops[k]) == n;
            assert(role_change_justified(current, desired, ops[k]));
            assert forall|j: int| 0 <= j < ops.len() && #[trigger] change_name(ops[j]) == n implies j == k by {}
        } else {
            assert(!role_needs_change(current, desired, n));
        }
    }
}

/// The role list as a table from name to colour.
pub open spec fn role_table(s: Seq<MemberRole>) -> Map<Seq<char>, u32> {
    Map::new(|n: Seq<char>| has_role(s, n), |n: Seq<char>| role_named(s, n).color)
}

/// The table after one change has been carried out.
pub open spec fn apply_role_change(m: Map<Seq<char>, u32>, c: RoleChange) -> Map<Seq<char>, u32> {
    match c {
        RoleChange::Create { name, color } => m.insert(name, color),
        RoleChange::Delete { name, .. } => m.remove(name),
        RoleChange::Update { name, color, .. } => m.insert(name, color),
    }
}

/// The table after every change of `cs` has been carried out, in order.
pub open spec fn apply_role_changes(m: Map<Seq<char>, u32>, cs: Seq<RoleChange>) -> Map<Seq<char>, u32>
    decreases cs.len(),
{
    if cs.len() == 0 {
        m
    } else {
        apply_role_change(apply_role_changes(m, cs.drop_last()), cs.last())
    }
}

proof fn lemma_apply_untouched(m: Map<Seq<char>, u32>, cs: Seq<RoleChange>, n: Seq<char>)
    requires
        forall|k: int| 0 <= k < cs.len() ==> #[trigger] change_name(cs[k]) != n,
    ensures
        apply_role_changes(m, cs).contains_key(n) == m.contains_key(n),
        m.contains_key(n) ==> apply_role_changes(m, cs)[n] == m[n],
    decreases cs.len(),
{
    if cs.len() > 0 {
        let t = cs.drop_last();
        assert forall|k: int| 0 <= k < t.len() implies #[trigger] change_name(t[k]) != n by {
            assert(t[k] == cs[k]);
            assert(change_name(cs[k]) != n);
        }
        lemma_apply_untouched(m, t, n);
        assert(change_name(cs[cs.len() - 1]) != n);
    }
}

proof fn lemma_apply_role_changes(m: Map<Seq<char>, u32>, cs: Seq<RoleChange>, k: int)
    requires
        change_names_distinct(cs),
        0 <= k < cs.len(),
    ensures
        match cs[k] {
            RoleChange::Delete { name, .. } => !apply_role_changes(m, cs).contains_key(name),
            RoleChange::Create { name, color } => apply_role_changes(m, cs).contains_key(name)
                && apply_role_changes(m, cs)[name] == color,
            RoleChange::Update { name, color, .. } => apply_role_changes(m, cs).contains_key(name)
                && apply_role_changes(m, cs)[name] == color,
        },
    decreases cs.len(),
{
    let t = cs.drop_last();
    if k < t.len() {
        assert forall|a: int, b: int| 0 <= a < t.len() && 0 <= b < t.len() && a != b implies change_name(
            t[a],
        ) != change_name(t[b]) by {
            assert(t[a] == cs[a] && t[b] == cs[b]);
        }
        lemma_apply_role_changes(m, t, k);
        assert(t[k] == cs[k]);
        assert(change_name(cs[k]) != change_name(cs[cs.len() - 1]));
    }
}

proof fn lemma_reach_point(current: Seq<MemberRole>, desired: Seq<MemberRole>, n: Seq<char>)
    requires
        current_roles_wf(current),
        role_names_distinct(desired),
    ensures
        ({
            let r = apply_role_changes(role_table(current), role_ops(current, desired));
            let d = role_table(desired);
            r.contains_key(n) == d.contains_key(n) && (d.contains_key(n) ==> r[n] == d[n])
        }),
{
    lemma_role_ops_exact(current, desired);
    let ops = role_ops(current, desired);
    let m = role_table(current);
    if role_needs_change(current, desired, n) {
        let k = choose|k: int| 0 <= k < ops.len() && #[trigger] change_name(ops[k]) == n;
        assert(role_change_justified(current, desired, ops[k]));
        lemma_apply_role_changes(m, ops, k);
    } else {
        assert forall|k: int| 0 <= k < ops.len() implies #[trigger] change_name(ops[k]) != n by {
            if change_name(ops[k]) == n {
                assert(role_change_justified(current, desired, ops[k]));
            }
        }
        lemma_apply_untouched(m, ops, n);
    }
}

/// Carrying out every change of the differ turns the current table into the desired one.
pub proof fn lemma_role_ops_reach_desired(current: Seq<MemberRole>, desired: Seq<MemberRole>)
    requires
        current_roles_wf(current),
        role_names_distinct(desired),
    ensures
        apply_role_changes(role_table(current), role_ops(current, desired)) == role_table(desired),
{
    lemma_role_ops_exact(current, desired);
    let ops = role_ops(current, desired);
    let m = role_table(current);
    let r = apply_role_changes(m, ops);
    let d = role_table(desired);
    assert(r.dom() =~= d.dom()) by {
        assert forall|n: Seq<char>| #[trigger] r.dom().contains(n) == d.dom().contains(n) by {
            lemma_reach_point(current, desired, n);
        }
    }
    assert forall|n: Seq<char>| #[trigger] r.dom().contains(n) implies r[n] == d[n] by {
        lemma_reach_point(current, desired, n);
    }
    assert(r =~= d);
}

/// Idempotence: once every change of a run has been carried out, a second run against the
/// same desired set finds nothing to do.
pub proof fn lemma_role_ops_idempotent(
    current: Seq<MemberRole>,
    desired: Seq<MemberRole>,
    after: Seq<MemberRole>,
)
    requires
        current_roles_wf(current),
        role_names_distinct(desired),
        current_roles_wf(after),
        role_table(after) == apply_role_changes(role_table(current), role_ops(current, desired)),
    ensures
        role_ops(after, desired) == Seq::<RoleChange>::empty(),
{
    lemma_role_ops_reach_desired(current, desired);
    lemma_role_ops_exact(after, desired);
    let ops = role_ops(after, desired);
    if ops.len() > 0 {
        let n = change_name(ops[0]);
        assert(role_change_justified(after, desired, ops[0]));
        assert(role_table(after).contains_key(n) == has_role(after, n));
        assert(role_table(desired).contains_key(n) == has_role(desired, n));
        if has_role(after, n) && has_role(desired, n) {
            assert(role_table(after)[n] == role_named(after, n).color);
            assert(role_table(desired)[n] == role_named(desired, n).color);
        }
        assert(false);
    }
    assert(ops =~= Seq::<RoleChange>::empty());
}

/// Rank of a change in the order they are carried out: deletions, creations, updates.
pub open spec fn role_change_rank(c: RoleChange) -> int {
    match c {
        RoleChange::Delete { .. } => 0,
        RoleChange::Create { .. } => 1,
        RoleChange::Update { .. } => 2,
    }
}

/// The differ lists every deletion before any creation, and every creation before any update.
pub proof fn lemma_role_ops_order(current: Seq<MemberRole>, desired: Seq<MemberRole>)
    requires
        current_roles_wf(current),
        role_names_distinct(desired),
    ensures
        forall|a: int, b: int|
            0 <= a < b < role_ops(current, desired).len() ==> role_change_rank(role_ops(current, desired)[a])
                <= role_change_rank(role_ops(current, desired)[b]),
{
    lemma_role_deletions(current, desired);
    lemma_role_creations(current, desired);
    lemma_role_updates(current, desired);
    let ds = role_deletions(current, desired);
    let cs = role_creations(desired, current);
    let us = role_updates(desired, current);
    let ops = role_ops(current, desired);
    assert forall|k: int| 0 <= k < ops.len() implies role_change_rank(#[trigger] ops[k]) == if k < ds.len() {
        0int
    } else if k < ds.len() + cs.len() {
        1int
    } else {
        2int
    } by {
        if k < ds.len() {
            assert(ops[k] == ds[k]);
        } else if k < ds.len() + cs.len() {
            assert(ops[k] == cs[k - ds.len()]);
        } else {
            assert(ops[k] == us[k - ds.len() - cs.len()]);
        }
    }
}

} // verus!
