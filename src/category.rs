//! Finding the category that holds the fronter channels.
use crate::names::same_text;
use crate::snapshots::GuildChannel;
use vstd::prelude::*;

verus! {

/// The lower-case form of a text, as `str::to_lowercase` gives it.
pub uninterp spec fn lower_of(s: Seq<char>) -> Seq<char>;

/// Relies on `str::to_lowercase`: the result depends on the characters alone, and an
/// empty text stays empty.
#[verifier::external_body]
fn lowercase(s: &str) -> (r: String)
    ensures
        r@ == lower_of(s@),
        s@.len() == 0 ==> r@.len() == 0,
{
    s.to_lowercase()
}

/// The decimal digits of `n`, most significant first.
pub open spec fn decimal_of(n: u64) -> Seq<char>
    decreases n,
{
    if n < 10 {
        seq![(48 + n) as char]
    } else {
        decimal_of(n / 10).push((48 + n % 10) as char)
    }
}

/// Relies on `u64`'s `Display`, through `ToString`: decimal digits, no sign, no padding.
#[verifier::external_body]
fn decimal(n: u64) -> (r: String)
    ensures
        r@ == decimal_of(n),
{
    n.to_string()
}

/// The community has no category of the name looked for.
#[derive(Debug, Clone, PartialEq, Eq)]
pub struct NoFronterCategoryError {
    pub id: u64,
    pub name: String,
}

pub open spec fn no_category_message(id: u64, name: Seq<char>) -> Seq<char> {
    "No fronter category for server '"@ + name + "' ("@ + decimal_of(id) + ")"@
}

impl NoFronterCategoryError {
    /// The text shown to a user.
    pub fn message(&self) -> (r: String)
        ensures
            r@ == no_category_message(self.id, self.name@),
    {
        let s = String::from_str("No fronter category for server '");
        let s = s.concat(self.name.as_str());
        let s = s.concat("' (");
        let digits = decimal(self.id);
        let s = s.concat(digits.as_str());
        s.concat(")")
    }
}

/// Whether channel `i` is a category whose folded name is `wanted`.
pub open spec fn is_wanted_category(channels: Seq<GuildChannel>, folded: Seq<String>, wanted: Seq<char>, i: int) -> bool {
    channels[i].is_category && folded[i]@ == wanted
}

/// The first channel that is a category and whose folded name, `folded[i]`, is `wanted`.
pub fn find_category_folded(channels: &Vec<GuildChannel>, folded: &Vec<String>, wanted: &str) -> (r: Option<
    usize,
>)
    requires
        folded@.len() == channels@.len(),
    ensures
        match r {
            Some(i) => i < channels@.len() && is_wanted_category(channels@, folded@, wanted@, i as int)
                && forall|j: int| 0 <= j < i ==> !is_wanted_category(channels@, folded@, wanted@, j),
            None => forall|j: int|
                0 <= j < channels@.len() ==> !is_wanted_category(channels@, folded@, wanted@, j),
        },
{
    let mut i: usize = 0;
    while i < channels.len()
        invariant
            folded@.len() == channels@.len(),
            i <= channels@.len(),
            forall|j: int| 0 <= j < i ==> !is_wanted_category(channels@, folded@, wanted@, j),
        decreases channels@.len() - i,
    {
        if channels[i].is_category && same_text(folded[i].as_str(), wanted) {
            return Some(i);
        }
        i = i + 1;
    }
    None
}

/// The name of the fronter category when none is given.
pub open spec fn category_name_spec(name: Option<Seq<char>>) -> Seq<char> {
    match name {
        Some(n) => n,
        None => "current fronters"@,
    }
}

pub open spec fn folded_names(channels: Seq<GuildChannel>) -> Seq<Seq<char>> {
    channels.map_values(|c: GuildChannel| lower_of(c.name@))
}

/// Finds the fronter category by name, case-insensitively; `name` defaults to
/// `"current fronters"`. Returns the index of the first category of that name in `channels`.
pub fn get_fronter_category(
    channels: &Vec<GuildChannel>,
    name: &Option<String>,
    guild_id: u64,
    guild_name: &String,
) -> (r: Result<usize, NoFronterCategoryError>)
    ensures
        ({
            let wanted = lower_of(
                category_name_spec(
                    match name {
                        Some(n) => Some(n@),
                        None => None,
                    },
                ),
            );
            let fs = folded_names(channels@);
            match r {
                Ok(i) => i < channels@.len() && channels@[i as int].is_category && fs[i as int] == wanted
                    && forall|j: int|
                    0 <= j < i ==> !(channels@[j].is_category && fs[j] == wanted),
                Err(e) => e.id == guild_id && e.name@ == guild_name@ && forall|j: int|
                    0 <= j < channels@.len() ==> !(channels@[j].is_category && fs[j] == wanted),
            }
        }),
{
    let wanted = match name {
        Some(n) => lowercase(n.as_str()),
        None => lowercase("current fronters"),
    };
    let mut folded: Vec<String> = Vec::new();
    let mut i: usize = 0;
    while i < channels.len()
        invariant
            i <= channels@.len(),
            folded@.len() == i,
            forall|j: int| 0 <= j < i ==> (#[trigger] folded@[j])@ == lower_of(channels@[j].name@),
        decreases channels@.len() - i,
    {
        folded.push(lowercase(channels[i].name.as_str()));
        i = i + 1;
    }
    assert(wanted@ == lower_of(
        category_name_spec(
            match name {
                Some(n) => Some(n@),
                None => None,
            },
        ),
    ));
    assert forall|j: int| 0 <= j < channels@.len() implies folded@[j]@ == #[trigger] folded_names(channels@)[j] by {
        assert(folded@[j]@ == lower_of(channels@[j].name@));
    }
    let ghost fs = folded_names(channels@);
    let found = find_category_folded(channels, &folded, wanted.as_str());
    assert forall|j: int| 0 <= j < channels@.len() implies is_wanted_category(channels@, folded@, wanted@, j) == (
    channels@[j].is_category && fs[j] == wanted@) by {
        assert(folded@[j]@ == fs[j]);
    }
    match found {
        Some(i) => Ok(i),
        None => Err(NoFronterCategoryError { id: guild_id, name: guild_name.clone() }),
    }
}

} // verus!
