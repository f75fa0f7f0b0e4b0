//! The two sides of a reconciliation run, built from what the platform and the
//! registry report.
use crate::channels::{FronterChannel, has_channel, names_distinct, channel_names_distinct};
use crate::names::{alter_role_name, alter_role_name_spec, ends_with_spec, is_alter_role_name, parse_role_color, role_color_spec};
use crate::roles::{MemberRole, current_roles_wf, has_role, role_names_distinct};
use vstd::prelude::*;

verus! {

/// A role as the platform lists it.
#[derive(Debug, Clone, PartialEq, Eq)]
pub struct PlatformRole {
    pub id: u64,
    pub name: String,
    pub color: u32,
}

/// A member as the registry lists it.
#[derive(Debug, Clone, PartialEq, Eq)]
pub struct RegistryMember {
    pub name: String,
    pub display_name: Option<String>,
    /// `#RRGGBB`, if the member has a colour.
    pub color: Option<String>,
}

/// A channel of the community as the platform lists it.
#[derive(Debug, Clone, PartialEq, Eq)]
pub struct GuildChannel {
    pub id: u64,
    pub name: String,
    pub position: u16,
    pub parent_id: Option<u64>,
    pub is_category: bool,
}

pub open spec fn role_entry(r: MemberRole) -> (Option<u64>, Seq<char>, u32) {
    (r.id, r.name@, r.color)
}

pub open spec fn role_entries(s: Seq<MemberRole>) -> Seq<(Option<u64>, Seq<char>, u32)> {
    s.map_values(|r: MemberRole| role_entry(r))
}

pub open spec fn role_entry_named(es: Seq<(Option<u64>, Seq<char>, u32)>, n: Seq<char>) -> bool {
    exists|k: int| 0 <= k < es.len() && #[trigger] es[k].1 == n
}

/// Where the entry named `n` stands in `es` (meaningful where `role_entry_named(es, n)`).
pub open spec fn role_entry_index(es: Seq<(Option<u64>, Seq<char>, u32)>, n: Seq<char>) -> int {
    choose|k: int| 0 <= k < es.len() && #[trigger] es[k].1 == n
}

/// `es` with `e` in place of the entry of the same name, or with `e` added if there is none.
pub open spec fn put_role_entry(es: Seq<(Option<u64>, Seq<char>, u32)>, e: (Option<u64>, Seq<char>, u32)) -> Seq<
    (Option<u64>, Seq<char>, u32),
> {
    if role_entry_named(es, e.1) {
        es.update(role_entry_index(es, e.1), e)
    } else {
        es.push(e)
    }
}

/// The managed roles of the platform's list: those named with the `" (Alter)"` suffix, one
/// per name, where a later role of a name takes the place of an earlier one.
pub open spec fn current_roles_of(s: Seq<PlatformRole>) -> Seq<(Option<u64>, Seq<char>, u32)>
    decreases s.len(),
{
    if s.len() == 0 {
        seq![]
    } else {
        let rest = current_roles_of(s.drop_last());
        let r = s.last();
        if ends_with_spec(r.name@, " (Alter)"@) {
            put_role_entry(rest, (Some(r.id), r.name@, r.color))
        } else {
            rest
        }
    }
}

/// The name a member goes by: its display name if it has one.
pub open spec fn member_name(m: RegistryMember) -> Seq<char> {
    match m.display_name {
        Some(d) => d@,
        None => m.name@,
    }
}

/// The role a member should have, as an entry without identifier.
pub open spec fn member_role_entry(m: RegistryMember) -> (Option<u64>, Seq<char>, u32) {
    (
        None,
        alter_role_name_spec(member_name(m)),
        role_color_spec(
            match m.color {
                Some(c) => Some(c@),
                None => None,
            },
        ),
    )
}

/// The roles the registry asks for: one per role name, where a later member that gives the
/// same name takes the place of an earlier one.
pub open spec fn desired_roles_of(s: Seq<RegistryMember>) -> Seq<(Option<u64>, Seq<char>, u32)>
    decreases s.len(),
{
    if s.len() == 0 {
        seq![]
    } else {
        put_role_entry(desired_roles_of(s.drop_last()), member_role_entry(s.last()))
    }
}

proof fn lemma_role_entries_push(s: Seq<MemberRole>, r: MemberRole)
    ensures
        role_entries(s.push(r)) == role_entries(s).push(role_entry(r)),
{
    assert(role_entries(s.push(r)) =~= role_entries(s).push(role_entry(r)));
}

proof fn lemma_entry_named(s: Seq<MemberRole>, n: Seq<char>)
    ensures
        role_entry_named(role_entries(s), n) == has_role(s, n),
{
    let es = role_entries(s);
    if has_role(s, n) {
        let i = choose|i: int| 0 <= i < s.len() && #[trigger] s[i].name@ == n;
        assert(es[i].1 == n);
    }
    if role_entry_named(es, n) {
        let k = choose|k: int| 0 <= k < es.len() && #[trigger] es[k].1 == n;
        assert(s[k].name@ == n);
    }
}

/// Puts `r` in place of the role of the same name in `out`, or appends it if there is none.
fn put_role(out: &mut Vec<MemberRole>, r: MemberRole)
    requires
        role_names_distinct(old(out)@),
    ensures
        role_names_distinct(final(out)@),
        role_entries(final(out)@) == put_role_entry(role_entries(old(out)@), role_entry(r)),
        forall|k: int| 0 <= k < final(out)@.len() ==> #[trigger] final(out)@[k] == r || (k < old(out)@.len()
            && final(out)@[k] == old(out)@[k]),
{
    proof {
        lemma_entry_named(out@, r.name@);
    }
    let ghost es = role_entries(out@);
    match crate::roles::find_role(out, &r.name) {
        Some(j) => {
            proof {
                let k = role_entry_index(es, r.name@);
                assert(es[j as int].1 == r.name@);
                assert(out@[k].name@ == es[k].1);
                assert(k == j);
            }
            out.set(j, r);
            assert(role_entries(out@) =~= es.update(j as int, role_entry(r)));
        },
        None => {
            proof {
                lemma_role_entries_push(out@, r);
            }
            out.push(r);
        },
    }
}

/// The current side for roles: the platform's managed roles, one per name.
pub fn get_current_roles(guild_roles: &Vec<PlatformRole>) -> (r: Vec<MemberRole>)
    ensures
        current_roles_wf(r@),
        role_entries(r@) == current_roles_of(guild_roles@),
{
    let mut out: Vec<MemberRole> = Vec::new();
    let mut i: usize = 0;
    while i < guild_roles.len()
        invariant
            i <= guild_roles@.len(),
            current_roles_wf(out@),
            role_entries(out@) == current_roles_of(guild_roles@.subrange(0, i as int)),
        decreases guild_roles@.len() - i,
    {
        let g = &guild_roles[i];
        assert(guild_roles@.subrange(0, i + 1).drop_last() =~= guild_roles@.subrange(0, i as int));
        if is_alter_role_name(g.name.as_str()) {
            let r = MemberRole { id: Some(g.id), name: g.name.clone(), color: g.color };
            let ghost before = out@;
            put_role(&mut out, r);
            assert forall|k: int| 0 <= k < out@.len() implies (#[trigger] out@[k]).id is Some by {
                if out@[k] != r {
                    assert(out@[k] == before[k]);
                }
            }
        }
        i = i + 1;
    }
    assert(guild_roles@.subrange(0, guild_roles@.len() as int) =~= guild_roles@);
    out
}

/// The desired side for roles: one per registry member, named and coloured after it.
pub fn get_desired_roles(members: &Vec<RegistryMember>) -> (r: Vec<MemberRole>)
    ensures
        role_names_distinct(r@),
        forall|k: int| 0 <= k < r@.len() ==> (#[trigger] r@[k]).id is None,
        role_entries(r@) == desired_roles_of(members@),
{
    let mut out: Vec<MemberRole> = Vec::new();
    let mut i: usize = 0;
    while i < members.len()
        invariant
            i <= members@.len(),
            role_names_distinct(out@),
            forall|k: int| 0 <= k < out@.len() ==> (#[trigger] out@[k]).id is None,
            role_entries(out@) == desired_roles_of(members@.subrange(0, i as int)),
        decreases members@.len() - i,
    {
        let m = &members[i];
        assert(members@.subrange(0, i + 1).drop_last() =~= members@.subrange(0, i as int));
        let shown: &str = match &m.display_name {
            Some(d) => d.as_str(),
            None => m.name.as_str(),
        };
        let r = MemberRole { id: None, name: alter_role_name(shown), color: parse_role_color(&m.color) };
        let ghost before = out@;
        put_role(&mut out, r);
        assert forall|k: int| 0 <= k < out@.len() implies (#[trigger] out@[k]).id is None by {
            if out@[k] != r {
                assert(out@[k] == before[k]);
            }
        }
        i = i + 1;
    }
    assert(members@.subrange(0, members@.len() as int) =~= members@);
    out
}

pub open spec fn channel_entry(c: FronterChannel) -> (u64, Seq<char>, u16) {
    (c.id, c.name@, c.position)
}

pub open spec fn channel_entries(s: Seq<FronterChannel>) -> Seq<(u64, Seq<char>, u16)> {
    s.map_values(|c: FronterChannel| channel_entry(c))
}

pub open spec fn channel_entry_named(es: Seq<(u64, Seq<char>, u16)>, n: Seq<char>) -> bool {
    exists|k: int| 0 <= k < es.len() && #[trigger] es[k].1 == n
}

/// The channels under `category`, in order.
pub open spec fn fronter_channels_of(s: Seq<GuildChannel>, category: u64) -> Seq<(u64, Seq<char>, u16)>
    decreases s.len(),
{
    if s.len() == 0 {
        seq![]
    } else {
        let rest = fronter_channels_of(s.drop_last(), category);
        let c = s.last();
        if c.parent_id == Some(category) {
            rest.push((c.id, c.name@, c.position))
        } else {
            rest
        }
    }
}

/// Where the entry named `n` stands in `es` (meaningful where `channel_entry_named(es, n)`).
pub open spec fn channel_entry_index(es: Seq<(u64, Seq<char>, u16)>, n: Seq<char>) -> int {
    choose|k: int| 0 <= k < es.len() && #[trigger] es[k].1 == n
}

/// One channel per name, where a later channel of a name takes the place of an earlier one.
pub open spec fn channels_by_name_of(s: Seq<(u64, Seq<char>, u16)>) -> Seq<(u64, Seq<char>, u16)>
    decreases s.len(),
{
    if s.len() == 0 {
        seq![]
    } else {
        let rest = channels_by_name_of(s.drop_last());
        let e = s.last();
        if channel_entry_named(rest, e.1) {
            rest.update(channel_entry_index(rest, e.1), e)
        } else {
            rest.push(e)
        }
    }
}

proof fn lemma_channel_entry_named(s: Seq<FronterChannel>, n: Seq<char>)
    ensures
        channel_entry_named(channel_entries(s), n) == has_channel(s, n),
{
    let es = channel_entries(s);
    if has_channel(s, n) {
        let i = choose|i: int| 0 <= i < s.len() && #[trigger] s[i].name@ == n;
        assert(es[i].1 == n);
    }
    if channel_entry_named(es, n) {
        let k = choose|k: int| 0 <= k < es.len() && #[trigger] es[k].1 == n;
        assert(s[k].name@ == n);
    }
}

/// Every channel whose parent is `category`, in order.
pub fn get_fronter_channels(channels: &Vec<GuildChannel>, category: u64) -> (r: Vec<FronterChannel>)
    ensures
        channel_entries(r@) == fronter_channels_of(channels@, category),
{
    let mut out: Vec<FronterChannel> = Vec::new();
    let mut i: usize = 0;
    while i < channels.len()
        invariant
            i <= channels@.len(),
            channel_entries(out@) == fronter_channels_of(channels@.subrange(0, i as int), category),
        decreases channels@.len() - i,
    {
        let c = &channels[i];
        assert(channels@.subrange(0, i + 1).drop_last() =~= channels@.subrange(0, i as int));
        if c.parent_id == Some(category) {
            let f = FronterChannel { id: c.id, name: c.name.clone(), position: c.position };
            assert(channel_entries(out@.push(f)) =~= channel_entries(out@).push(channel_entry(f)));
            out.push(f);
        }
        i = i + 1;
    }
    assert(channels@.subrange(0, channels@.len() as int) =~= channels@);
    out
}

/// The current side for channels: one channel per name, where a later channel of a name
/// takes the place of an earlier one.
pub fn channels_by_name(channels: &Vec<FronterChannel>) -> (r: Vec<FronterChannel>)
    ensures
        channel_names_distinct(r@),
        channel_entries(r@) == channels_by_name_of(channel_entries(channels@)),
{
    let mut out: Vec<FronterChannel> = Vec::new();
    let mut i: usize = 0;
    while i < channels.len()
        invariant
            i <= channels@.len(),
            channel_names_distinct(out@),
            channel_entries(out@) == channels_by_name_of(channel_entries(channels@.subrange(0, i as int))),
        decreases channels@.len() - i,
    {
        let c = &channels[i];
        let f = FronterChannel { id: c.id, name: c.name.clone(), position: c.position };
        let ghost es = channel_entries(out@);
        assert(channel_entries(channels@.subrange(0, i + 1)).drop_last() =~= channel_entries(
            channels@.subrange(0, i as int),
        ));
        assert(channel_entries(channels@.subrange(0, i + 1)).last() == channel_entry(f));
        proof {
            lemma_channel_entry_named(out@, f.name@);
        }
        match crate::channels::find_channel(&out, &f.name) {
            Some(j) => {
                proof {
                    let k = channel_entry_index(es, f.name@);
                    assert(es[j as int].1 == f.name@);
                    assert(out@[k].name@ == es[k].1);
                    assert(k == j);
                }
                out.set(j, f);
                assert(channel_entries(out@) =~= es.update(j as int, channel_entry(f)));
            },
            None => {
                assert(channel_entries(out@.push(f)) =~= es.push(channel_entry(f)));
                out.push(f);
            },
        }
        i = i + 1;
    }
    assert(channels@.subrange(0, channels@.len() as int) =~= channels@);
    out
}

/// The name a fronter's channel carries: the member's display name if it has one.
pub fn fronter_name(m: &RegistryMember) -> (r: String)
    ensures
        r@ == member_name(*m),
{
    match &m.display_name {
        Some(d) => d.clone(),
        None => m.name.clone(),
    }
}

/// The registry's names in order, the first of each.
pub open spec fn distinct_names_of(s: Seq<String>) -> Seq<Seq<char>>
    decreases s.len(),
{
    if s.len() == 0 {
        seq![]
    } else {
        let rest = distinct_names_of(s.drop_last());
        if rest.contains(s.last()@) {
            rest
        } else {
            rest.push(s.last()@)
        }
    }
}

pub open spec fn name_views(s: Seq<String>) -> Seq<Seq<char>> {
    s.map_values(|x: String| x@)
}

/// The desired side for channels: the registry's names in registry order, each once.
pub fn get_desired_fronters(names: &Vec<String>) -> (r: Vec<String>)
    ensures
        names_distinct(r@),
        name_views(r@) == distinct_names_of(names@),
{
    let mut out: Vec<String> = Vec::new();
    let mut i: usize = 0;
    while i < names.len()
        invariant
            i <= names@.len(),
            names_distinct(out@),
            name_views(out@) == distinct_names_of(names@.subrange(0, i as int)),
        decreases names@.len() - i,
    {
        let n = &names[i];
        assert(names@.subrange(0, i + 1).drop_last() =~= names@.subrange(0, i as int));
        let found = crate::channels::find_name(&out, n);
        proof {
            let vs = name_views(out@);
            if vs.contains(n@) {
                let k = choose|k: int| 0 <= k < vs.len() && vs[k] == n@;
                assert(out@[k]@ == n@);
            }
            if let Some(k) = found {
                assert(vs[k as int] == n@);
            }
        }
        if found.is_none() {
            let c = n.clone();
            assert(name_views(out@.push(c)) =~= name_views(out@).push(c@));
            out.push(c);
        }
        i = i + 1;
    }
    assert(names@.subrange(0, names@.len() as int) =~= names@);
    out
}

} // verus!
