//! Emoji usage: finding custom emoji references in a message, counting them, and the
//! orders in which statistics can be listed.
use crate::names::same_text;
use vstd::prelude::*;

verus! {

/// A custom emoji of a community.
#[derive(Debug, Clone, Eq, Hash)]
pub struct Emoji {
    pub id: u64,
    pub guild_id: u64,
    pub name: String,
    pub animated: bool,
}

impl View for Emoji {
    type V = (u64, u64, Seq<char>, bool);

    open spec fn view(&self) -> (u64, u64, Seq<char>, bool) {
        (self.id, self.guild_id, self.name@, self.animated)
    }
}

impl PartialEq for Emoji {
    fn eq(&self, other: &Emoji) -> (r: bool)
        ensures
            r == (self@ == other@),
    {
        self.id == other.id && self.guild_id == other.guild_id && self.name == other.name && self.animated
            == other.animated
    }
}

impl vstd::std_specs::cmp::PartialEqSpecImpl for Emoji {
    open spec fn obeys_eq_spec() -> bool {
        true
    }

    open spec fn eq_spec(&self, other: &Emoji) -> bool {
        self@ == other@
    }
}

fn copy_emoji(e: &Emoji) -> (r: Emoji)
    ensures
        r@ == e@,
{
    Emoji { id: e.id, guild_id: e.guild_id, name: e.name.clone(), animated: e.animated }
}

/// Number of times `e` occurs in `s`.
pub open spec fn occurrences(s: Seq<Emoji>, e: (u64, u64, Seq<char>, bool)) -> int
    decreases s.len(),
{
    if s.len() == 0 {
        0
    } else {
        occurrences(s.drop_last(), e) + if s.last()@ == e {
            1int
        } else {
            0int
        }
    }
}

proof fn lemma_occurrences_bound(s: Seq<Emoji>, e: (u64, u64, Seq<char>, bool))
    ensures
        0 <= occurrences(s, e) <= s.len(),
    decreases s.len(),
{
    if s.len() > 0 {
        lemma_occurrences_bound(s.drop_last(), e);
    }
}

/// Whether some entry of `r` is for `e`.
pub open spec fn has_entry(r: Seq<(Emoji, i16)>, e: (u64, u64, Seq<char>, bool)) -> bool {
    exists|x: int| 0 <= x < r.len() && (#[trigger] r[x]).0@ == e
}

pub open spec fn has_key(keys: Seq<Emoji>, e: (u64, u64, Seq<char>, bool)) -> bool {
    exists|x: int| 0 <= x < keys.len() && (#[trigger] keys[x])@ == e
}

/// Counts each distinct emoji of `emojis`: one entry per distinct emoji, with the number
/// of times it occurs.
pub fn count_emojis(emojis: Vec<Emoji>) -> (r: Vec<(Emoji, i16)>)
    requires
        emojis@.len() <= i16::MAX,
    ensures
        forall|a: int, b: int| 0 <= a < r@.len() && 0 <= b < r@.len() && a != b ==> r@[a].0@ != r@[b].0@,
        forall|k: int| 0 <= k < r@.len() ==> (#[trigger] r@[k]).1 as int == occurrences(emojis@, r@[k].0@),
        forall|k: int| 0 <= k < r@.len() ==> occurrences(emojis@, (#[trigger] r@[k]).0@) >= 1,
        forall|i: int| 0 <= i < emojis@.len() ==> has_entry(r@, (#[trigger] emojis@[i])@),
{
    let mut keys: Vec<Emoji> = Vec::new();
    let mut counts: Vec<i16> = Vec::new();
    let mut i: usize = 0;
    while i < emojis.len()
        invariant
            emojis@.len() <= i16::MAX,
            i <= emojis@.len(),
            keys@.len() == counts@.len(),
            forall|a: int, b: int| 0 <= a < keys@.len() && 0 <= b < keys@.len() && a != b ==> keys@[a]@ != keys@[b]@,
            forall|k: int|
                0 <= k < keys@.len() ==> (#[trigger] counts@[k]) as int == occurrences(
                    emojis@.subrange(0, i as int),
                    keys@[k]@,
                ),
            forall|j: int| 0 <= j < i ==> has_key(keys@, (#[trigger] emojis@[j])@),
            forall|k: int| 0 <= k < counts@.len() ==> #[trigger] counts@[k] >= 1,
        decreases emojis@.len() - i,
    {
        let e = &emojis[i];
        let ghost pre = emojis@.subrange(0, i as int);
        let ghost next = emojis@.subrange(0, i + 1);
        assert(next.drop_last() =~= pre);
        assert(next.last() == *e);
        let mut k: usize = 0;
        let mut found: bool = false;
        while k < keys.len() && !found
            invariant
                keys@.len() == counts@.len(),
                k <= keys@.len(),
                !found ==> forall|x: int| 0 <= x < k ==> keys@[x]@ != e@,
                found ==> k > 0 && keys@[k - 1]@ == e@,
            decreases keys@.len() - k,
        {
            if keys[k] == *e {
                found = true;
            }
            k = k + 1;
        }
        proof {
            lemma_occurrences_bound(pre, e@);
        }
        let ghost old_keys = keys@;
        if found {
            let at = k - 1;
            proof {
                lemma_occurrences_bound(pre, keys@[at as int]@);
            }
            let c = counts[at];
            counts.set(at, c + 1);
            assert(keys@[at as int]@ == (emojis@[i as int])@);
        } else {
            keys.push(copy_emoji(e));
            counts.push(1);
            assert(occurrences(pre, e@) == 0) by {
                lemma_no_occurrence(pre, e@);
            }
            assert(keys@[keys@.len() - 1]@ == (emojis@[i as int])@);
        }
        assert forall|j: int| 0 <= j < i + 1 implies has_key(keys@, (#[trigger] emojis@[j])@) by {
            if j < i {
                assert(has_key(old_keys, emojis@[j]@));
                let x = choose|x: int| 0 <= x < old_keys.len() && (#[trigger] old_keys[x])@ == (emojis@[j])@;
                assert(keys@[x] == old_keys[x]);
            } else if found {
                assert(keys@[k - 1]@ == (emojis@[j])@);
            } else {
                assert(keys@[keys@.len() - 1]@ == (emojis@[j])@);
            }
        }
        i = i + 1;
    }
    assert(emojis@.subrange(0, emojis@.len() as int) =~= emojis@);
    assert forall|j: int| 0 <= j < emojis@.len() implies has_key(keys@, (#[trigger] emojis@[j])@) by {
        assert(0 <= j < i);
    }
    let mut r: Vec<(Emoji, i16)> = Vec::new();
    let mut k: usize = 0;
    while k < keys.len()
        invariant
            keys@.len() == counts@.len(),
            k <= keys@.len(),
            r@.len() == k,
            forall|x: int| 0 <= x < k ==> (#[trigger] r@[x]).0@ == keys@[x]@ && r@[x].1 == counts@[x],
            forall|j: int| 0 <= j < emojis@.len() ==> has_key(keys@, (#[trigger] emojis@[j])@),
            forall|x: int| 0 <= x < counts@.len() ==> #[trigger] counts@[x] >= 1,
        decreases keys@.len() - k,
    {
        r.push((copy_emoji(&keys[k]), counts[k]));
        k = k + 1;
    }
    assert forall|j: int| 0 <= j < emojis@.len() implies has_entry(r@, (#[trigger] emojis@[j])@) by {
        let x = choose|x: int| 0 <= x < keys@.len() && (#[trigger] keys@[x])@ == (emojis@[j])@;
        assert(r@[x].0@ == keys@[x]@);
    }
    r
}

proof fn lemma_no_occurrence(s: Seq<Emoji>, e: (u64, u64, Seq<char>, bool))
    requires
        forall|j: int| 0 <= j < s.len() ==> (#[trigger] s[j])@ != e,
    ensures
        occurrences(s, e) == 0,
    decreases s.len(),
{
    if s.len() > 0 {
        let t = s.drop_last();
        assert forall|j: int| 0 <= j < t.len() implies (#[trigger] t[j])@ != e by {
            assert(t[j] == s[j]);
        }
        lemma_no_occurrence(t, e);
        assert(s[s.len() - 1]@ != e);
    }
}

/// The order in which emoji statistics are listed.
#[derive(Clone, Copy, Debug, PartialEq, Eq, Structural)]
pub enum StatsSort {
    CountDesc,
    CountAsc,
    DateDesc,
    DateAsc,
}

/// A sort identifier that names no order.
#[derive(Debug, Clone, PartialEq, Eq)]
pub struct UnknownSortError {
    pub sort: String,
}

impl UnknownSortError {
    /// The text shown to a user.
    pub fn message(&self) -> (r: String)
        ensures
            r@ == "unknown sort "@ + self.sort@,
    {
        String::from_str("unknown sort ").concat(self.sort.as_str())
    }
}

impl StatsSort {
    pub open spec fn id_spec(self) -> Seq<char> {
        match self {
            StatsSort::CountDesc => "count_desc"@,
            StatsSort::CountAsc => "count_asc"@,
            StatsSort::DateDesc => "date_desc"@,
            StatsSort::DateAsc => "date_asc"@,
        }
    }

    pub open spec fn name_spec(self) -> Seq<char> {
        match self {
            StatsSort::CountDesc => "Most Used"@,
            StatsSort::CountAsc => "Least Used"@,
            StatsSort::DateDesc => "Most Recent"@,
            StatsSort::DateAsc => "Least Recent"@,
        }
    }

    /// The label shown to a user.
    pub fn name(&self) -> (r: &'static str)
        ensures
            r@ == self.name_spec(),
    {
        match self {
            StatsSort::CountDesc => "Most Used",
            StatsSort::CountAsc => "Least Used",
            StatsSort::DateDesc => "Most Recent",
            StatsSort::DateAsc => "Least Recent",
        }
    }

    /// The identifier used in component payloads.
    pub fn id(&self) -> (r: &'static str)
        ensures
            r@ == self.id_spec(),
    {
        match self {
            StatsSort::CountDesc => "count_desc",
            StatsSort::CountAsc => "count_asc",
            StatsSort::DateDesc => "date_desc",
            StatsSort::DateAsc => "date_asc",
        }
    }

    /// The order whose identifier is `string`.
    pub fn try_from_string(string: &str) -> (r: Result<StatsSort, UnknownSortError>)
        ensures
            match r {
                Ok(s) => s.id_spec() == string@,
                Err(e) => e.sort@ == string@ && forall|s: StatsSort| #[trigger] s.id_spec() != string@,
            },
    {
        if same_text(string, "count_desc") {
            Ok(StatsSort::CountDesc)
        } else if same_text(string, "count_asc") {
            Ok(StatsSort::CountAsc)
        } else if same_text(string, "date_desc") {
            Ok(StatsSort::DateDesc)
        } else if same_text(string, "date_asc") {
            Ok(StatsSort::DateAsc)
        } else {
            assert forall|s: StatsSort| #[trigger] s.id_spec() != string@ by {
                match s {
                    StatsSort::CountDesc => {},
                    StatsSort::CountAsc => {},
                    StatsSort::DateDesc => {},
                    StatsSort::DateAsc => {},
                }
            }
            Err(UnknownSortError { sort: String::from_str(string) })
        }
    }
}

/// The custom emoji references found in a text, in order: for each, the animation marker,
/// the name and the identifier digits.
pub uninterp spec fn emoji_matches(s: Seq<char>) -> Seq<(Seq<char>, Seq<char>, Seq<char>)>;

pub open spec fn is_ascii_digit(c: char) -> bool {
    48 <= c as u32 <= 57
}

/// Relies on `regex::Regex::new` and `regex::Regex::captures_iter` with the pattern
/// `<(a?):([[:word:]]+):([[:digit:]]+)>`: each match, left to right, with its three groups.
#[verifier::external_body]
fn find_emoji_references(content: &str) -> (r: Vec<(String, String, String)>)
    ensures
        r@.len() == emoji_matches(content@).len(),
        forall|k: int|
            0 <= k < r@.len() ==> ((#[trigger] r@[k]).0@, r@[k].1@, r@[k].2@) == emoji_matches(content@)[k],
{
    let re = regex::Regex::new(r"<(a?):([[:word:]]+):([[:digit:]]+)>").unwrap();
    let mut out = Vec::new();
    for caps in re.captures_iter(content) {
        let (_, [animated, name, id]) = caps.extract();
        out.push((animated.to_string(), name.to_string(), id.to_string()));
    }
    out
}

pub open spec fn decimal_value(s: Seq<char>) -> int
    decreases s.len(),
{
    if s.len() == 0 {
        0
    } else {
        decimal_value(s.drop_last()) * 10 + (s.last() as u32 - 48)
    }
}

pub open spec fn all_digits(s: Seq<char>) -> bool {
    forall|i: int| 0 <= i < s.len() ==> is_ascii_digit(#[trigger] s[i])
}

/// The digits as an unsigned 64-bit integer: at least one digit, with a value that fits.
pub open spec fn parse_u64_spec(s: Seq<char>) -> Option<u64> {
    if s.len() > 0 && all_digits(s) && decimal_value(s) <= u64::MAX {
        Some(decimal_value(s) as u64)
    } else {
        None
    }
}

proof fn lemma_decimal_value_grows(s: Seq<char>, k: int)
    requires
        all_digits(s),
        0 <= k <= s.len(),
    ensures
        0 <= decimal_value(s.subrange(0, k)) <= decimal_value(s),
    decreases s.len(),
{
    if s.len() > 0 {
        let t = s.drop_last();
        assert(all_digits(t)) by {
            assert forall|i: int| 0 <= i < t.len() implies is_ascii_digit(#[trigger] t[i]) by {
                assert(t[i] == s[i]);
            }
        }
        assert(is_ascii_digit(s[s.len() - 1]));
        lemma_decimal_value_grows(t, t.len() as int);
        assert(t.subrange(0, t.len() as int) =~= t);
        if k == s.len() {
            assert(s.subrange(0, k) =~= s);
        } else {
            lemma_decimal_value_grows(t, k);
            assert(t.subrange(0, k) =~= s.subrange(0, k));
        }
    } else {
        assert(s.subrange(0, k) =~= s);
    }
}

/// Reads decimal digits as a `u64`.
pub fn parse_u64(s: &str) -> (r: Option<u64>)
    ensures
        r == parse_u64_spec(s@),
{
    let n = s.unicode_len();
    if n == 0 {
        return None;
    }
    let mut acc: u64 = 0;
    let mut k: usize = 0;
    while k < n
        invariant
            n == s@.len(),
            n > 0,
            k <= n,
            all_digits(s@.subrange(0, k as int)),
            acc as int == decimal_value(s@.subrange(0, k as int)),
        decreases n - k,
    {
        let c = s.get_char(k);
        let ghost pre = s@.subrange(0, k as int);
        let ghost next = s@.subrange(0, k + 1);
        assert(next.drop_last() =~= pre);
        assert(next.last() == c);
        let v = c as u32;
        if v < 48 || v > 57 {
            assert(!all_digits(s@));
            return None;
        }
        assert(all_digits(next)) by {
            assert forall|x: int| 0 <= x < next.len() implies is_ascii_digit(#[trigger] next[x]) by {
                if x < k {
                    assert(next[x] == pre[x]);
                }
            }
        }
        let wide: u128 = acc as u128 * 10 + (v - 48) as u128;
        if wide > 0xFFFF_FFFF_FFFF_FFFF {
            proof {
                if all_digits(s@) {
                    lemma_decimal_value_grows(s@, k + 1);
                }
            }
            return None;
        }
        acc = wide as u64;
        k = k + 1;
    }
    assert(s@.subrange(0, n as int) =~= s@);
    Some(acc)
}

/// The emoji a list of references names, in order; a reference whose identifier does not
/// fit a `u64` names none.
pub open spec fn emojis_of(guild_id: u64, ms: Seq<(Seq<char>, Seq<char>, Seq<char>)>) -> Seq<
    (u64, u64, Seq<char>, bool),
>
    decreases ms.len(),
{
    if ms.len() == 0 {
        seq![]
    } else {
        let rest = emojis_of(guild_id, ms.drop_last());
        let m = ms.last();
        match parse_u64_spec(m.2) {
            Some(id) => rest.push((id, guild_id, m.1, m.0 == "a"@)),
            None => rest,
        }
    }
}

pub open spec fn emoji_views(s: Seq<Emoji>) -> Seq<(u64, u64, Seq<char>, bool)> {
    s.map_values(|e: Emoji| e@)
}

pub open spec fn match_views(ms: Seq<(String, String, String)>) -> Seq<(Seq<char>, Seq<char>, Seq<char>)> {
    ms.map_values(|m: (String, String, String)| (m.0@, m.1@, m.2@))
}

/// The emoji that a list of references, each its animation marker, name and identifier
/// digits, names in a community.
pub fn emojis_from_matches(guild_id: u64, matches: &Vec<(String, String, String)>) -> (r: Vec<Emoji>)
    ensures
        emoji_views(r@) == emojis_of(guild_id, match_views(matches@)),
{
    let mut out: Vec<Emoji> = Vec::new();
    let mut i: usize = 0;
    while i < matches.len()
        invariant
            i <= matches@.len(),
            emoji_views(out@) == emojis_of(guild_id, match_views(matches@.subrange(0, i as int))),
        decreases matches@.len() - i,
    {
        let m = &matches[i];
        assert(match_views(matches@.subrange(0, i + 1)).drop_last() =~= match_views(
            matches@.subrange(0, i as int),
        ));
        assert(match_views(matches@.subrange(0, i + 1)).last() == (m.0@, m.1@, m.2@));
        match parse_u64(m.2.as_str()) {
            Some(id) => {
                let e = Emoji {
                    id,
                    guild_id,
                    name: m.1.clone(),
                    animated: same_text(m.0.as_str(), "a"),
                };
                assert(emoji_views(out@.push(e)) =~= emoji_views(out@).push(e@));
                out.push(e);
            },
            None => {},
        }
        i = i + 1;
    }
    assert(matches@.subrange(0, matches@.len() as int) =~= matches@);
    out
}

/// The custom emoji referenced in `content`, in order, as emoji of the community `guild_id`.
pub fn parse_emojis_from_string(guild_id: u64, content: &str) -> (r: Vec<Emoji>)
    ensures
        emoji_views(r@) == emojis_of(guild_id, emoji_matches(content@)),
{
    let found = find_emoji_references(content);
    assert(match_views(found@) =~= emoji_matches(content@));
    emojis_from_matches(guild_id, &found)
}

} // verus!
