//! Text rules: role names derived from a member's name, the colour of a member's role,
//! and plain comparisons on text.
use vstd::prelude::*;

verus! {

/// Colour the platform gives a role that has none of its own.
pub const DEFAULT_ROLE_COLOR: u32 = 0x99AAB5;

/// The largest colour: colours are 24-bit.
pub const MAX_ROLE_COLOR: u32 = 0xFFFFFF;

/// Whether a parenthetical qualifier, `" ("`, starts at `i`.
pub open spec fn qualifier_at(s: Seq<char>, i: int) -> bool {
    0 <= i && i + 1 < s.len() && s[i] == ' ' && s[i + 1] == '('
}

/// Index of the first qualifier at or after `i`, or the length of `s` if there is none.
pub open spec fn first_qualifier(s: Seq<char>, i: int) -> int
    decreases s.len() - i,
{
    if i < 0 || i + 1 >= s.len() {
        s.len() as int
    } else if qualifier_at(s, i) {
        i
    } else {
        first_qualifier(s, i + 1)
    }
}

/// The name with its parenthetical qualifier, and everything after it, cut off.
pub open spec fn without_qualifier(s: Seq<char>) -> Seq<char> {
    s.subrange(0, first_qualifier(s, 0))
}

pub open spec fn alter_role_name_spec(s: Seq<char>) -> Seq<char> {
    without_qualifier(s) + " (Alter)"@
}

/// Whether `suffix` ends `s`.
pub open spec fn ends_with_spec(s: Seq<char>, suffix: Seq<char>) -> bool {
    suffix.len() <= s.len() && s.subrange(s.len() - suffix.len(), s.len() as int) == suffix
}

/// Whether `s` and `t` hold the same characters.
pub fn same_text(s: &str, t: &str) -> (r: bool)
    ensures
        r == (s@ == t@),
{
    let n = s.unicode_len();
    if n != t.unicode_len() {
        return false;
    }
    let mut i: usize = 0;
    while i < n
        invariant
            n == s@.len(),
            n == t@.len(),
            i <= n,
            forall|j: int| 0 <= j < i ==> s@[j] == t@[j],
        decreases n - i,
    {
        if s.get_char(i) != t.get_char(i) {
            return false;
        }
        i = i + 1;
    }
    assert(s@ =~= t@);
    true
}

/// Whether `suffix` ends `s`.
pub fn ends_with_text(s: &str, suffix: &str) -> (r: bool)
    ensures
        r == ends_with_spec(s@, suffix@),
{
    let n = s.unicode_len();
    let m = suffix.unicode_len();
    if m > n {
        return false;
    }
    let mut i: usize = 0;
    while i < m
        invariant
            n == s@.len(),
            m == suffix@.len(),
            m <= n,
            i <= m,
            forall|j: int| 0 <= j < i ==> s@[n - m + j] == suffix@[j],
        decreases m - i,
    {
        if s.get_char(n - m + i) != suffix.get_char(i) {
            assert(s@.subrange(n - m, n as int)[i as int] == s@[n - m + i]);
            return false;
        }
        i = i + 1;
    }
    assert(s@.subrange(n - m, n as int) =~= suffix@);
    true
}

/// The role name for a member: the name up to its first parenthetical qualifier, then
/// `" (Alter)"`, which keeps it apart from ordinary roles.
pub fn alter_role_name(name: &str) -> (r: String)
    ensures
        r@ == alter_role_name_spec(name@),
{
    let n = name.unicode_len();
    let mut i: usize = 0;
    let mut end: usize = n;
    while i < n && end == n
        invariant
            n == name@.len(),
            i <= n,
            end == n ==> first_qualifier(name@, 0) == first_qualifier(name@, i as int),
            end != n ==> end == first_qualifier(name@, 0) && end < n,
        decreases n - i,
    {
        if i + 1 < n && name.get_char(i) == ' ' && name.get_char(i + 1) == '(' {
            end = i;
        }
        i = i + 1;
    }
    let head = name.substring_char(0, end);
    let base = String::from_str(head);
    base.concat(" (Alter)")
}

/// Whether a role name is one this library manages.
pub fn is_alter_role_name(name: &str) -> (r: bool)
    ensures
        r == ends_with_spec(name@, " (Alter)"@),
{
    ends_with_text(name, " (Alter)")
}

/// The value of a hexadecimal digit, or -1 for any other character.
pub open spec fn hex_digit_value(c: char) -> int {
    let v = c as u32 as int;
    if 48 <= v <= 57 {
        v - 48
    } else if 97 <= v <= 102 {
        v - 87
    } else if 65 <= v <= 70 {
        v - 55
    } else {
        -1
    }
}

pub open spec fn all_hex(s: Seq<char>) -> bool {
    forall|i: int| 0 <= i < s.len() ==> hex_digit_value(#[trigger] s[i]) >= 0
}

pub open spec fn hex_value(s: Seq<char>) -> int
    decreases s.len(),
{
    if s.len() == 0 {
        0
    } else {
        hex_value(s.drop_last()) * 16 + hex_digit_value(s.last())
    }
}

/// `s` without its leading `'#'` characters.
pub open spec fn strip_hashes(s: Seq<char>) -> Seq<char>
    decreases s.len(),
{
    if s.len() > 0 && s[0] == '#' {
        strip_hashes(s.drop_first())
    } else {
        s
    }
}

/// A hexadecimal number as a 24-bit colour: an optional `'+'`, then at least one digit,
/// with a value of at most `MAX_ROLE_COLOR`.
pub open spec fn parse_hex_color(t: Seq<char>) -> Option<u32> {
    let body = if t.len() > 0 && t[0] == '+' {
        t.drop_first()
    } else {
        t
    };
    if body.len() > 0 && all_hex(body) && hex_value(body) <= MAX_ROLE_COLOR {
        Some(hex_value(body) as u32)
    } else {
        None
    }
}

/// The colour of a member's role: the member's `#RRGGBB` colour where it reads as a
/// hexadecimal number of 24 bits, else the platform's default.
pub open spec fn role_color_spec(color: Option<Seq<char>>) -> u32 {
    match color {
        None => DEFAULT_ROLE_COLOR,
        Some(c) => match parse_hex_color(strip_hashes(c)) {
            Some(v) => v,
            None => DEFAULT_ROLE_COLOR,
        },
    }
}

fn hex_digit(c: char) -> (r: Option<u32>)
    ensures
        match r {
            Some(d) => hex_digit_value(c) == d as int && d < 16,
            None => hex_digit_value(c) < 0,
        },
{
    let v = c as u32;
    if 48 <= v && v <= 57 {
        Some(v - 48)
    } else if 97 <= v && v <= 102 {
        Some(v - 87)
    } else if 65 <= v && v <= 70 {
        Some(v - 55)
    } else {
        None
    }
}

proof fn lemma_hex_value_grows(s: Seq<char>, k: int)
    requires
        all_hex(s),
        0 <= k <= s.len(),
    ensures
        hex_value(s.subrange(0, k)) <= hex_value(s),
        hex_value(s.subrange(0, k)) >= 0,
    decreases s.len(),
{
    if s.len() > 0 {
        let t = s.drop_last();
        assert(all_hex(t)) by {
            assert forall|i: int| 0 <= i < t.len() implies hex_digit_value(#[trigger] t[i]) >= 0 by {
                assert(t[i] == s[i]);
            }
        }
        assert(hex_digit_value(s[s.len() - 1]) >= 0);
        if k == s.len() {
            assert(s.subrange(0, k) =~= s);
            lemma_hex_value_grows(t, t.len() as int);
            assert(t.subrange(0, t.len() as int) =~= t);
        } else {
            lemma_hex_value_grows(t, k);
            assert(t.subrange(0, k) =~= s.subrange(0, k));
            lemma_hex_value_grows(t, t.len() as int);
            assert(t.subrange(0, t.len() as int) =~= t);
        }
    } else {
        assert(s.subrange(0, k) =~= s);
    }
}

/// The colour of a member's role, from the member's optional colour text.
pub fn parse_role_color(color: &Option<String>) -> (r: u32)
    ensures
        r == role_color_spec(
            match color {
                Some(c) => Some(c@),
                None => None,
            },
        ),
{
    let text: &str = match color {
        Some(c) => c.as_str(),
        None => {
            return DEFAULT_ROLE_COLOR;
        },
    };
    let n = text.unicode_len();
    let mut i: usize = 0;
    assert(text@.subrange(0, n as int) =~= text@);
    while i < n && text.get_char(i) == '#'
        invariant
            n == text@.len(),
            i <= n,
            strip_hashes(text@) == strip_hashes(text@.subrange(i as int, n as int)),
        decreases n - i,
    {
        assert(text@.subrange(i as int, n as int).drop_first() =~= text@.subrange(i + 1, n as int));
        i = i + 1;
    }
    let ghost t = text@.subrange(i as int, n as int);
    assert(strip_hashes(t) == t);
    assert(t.len() > 0 ==> t[0] == text@[i as int]);
    assert(strip_hashes(text@) == t);
    let mut j = i;
    if j < n && text.get_char(j) == '+' {
        j = j + 1;
    }
    let body = text.substring_char(j, n);
    proof {
        if t.len() > 0 && t[0] == '+' {
            assert(body@ =~= t.drop_first());
        } else {
            assert(body@ =~= t);
        }
    }
    assert(parse_hex_color(strip_hashes(text@)) == (if body@.len() > 0 && all_hex(body@) && hex_value(body@)
        <= MAX_ROLE_COLOR {
        Some(hex_value(body@) as u32)
    } else {
        None
    }));
    let m = body.unicode_len();
    if m == 0 {
        return DEFAULT_ROLE_COLOR;
    }
    let ghost goal = role_color_spec(
        match color {
            Some(c) => Some(c@),
            None => None,
        },
    );
    assert(goal == (if all_hex(body@) && hex_value(body@) <= MAX_ROLE_COLOR {
        hex_value(body@) as u32
    } else {
        DEFAULT_ROLE_COLOR
    }));
    let mut acc: u32 = 0;
    let mut k: usize = 0;
    while k < m
        invariant
            goal == (if all_hex(body@) && hex_value(body@) <= MAX_ROLE_COLOR {
                hex_value(body@) as u32
            } else {
                DEFAULT_ROLE_COLOR
            }),
            goal == role_color_spec(
                match color {
                    Some(c) => Some(c@),
                    None => None,
                },
            ),
            m == body@.len(),
            k <= m,
            all_hex(body@.subrange(0, k as int)),
            acc as int == hex_value(body@.subrange(0, k as int)),
        decreases m - k,
    {
        let c = body.get_char(k);
        let ghost pre = body@.subrange(0, k as int);
        let ghost next = body@.subrange(0, k + 1);
        assert(next.drop_last() =~= pre);
        assert(next.last() == c);
        match hex_digit(c) {
            None => {
                assert(!all_hex(body@));
                return DEFAULT_ROLE_COLOR;
            },
            Some(d) => {
                assert(all_hex(next)) by {
                    assert forall|x: int| 0 <= x < next.len() implies hex_digit_value(#[trigger] next[x])
                        >= 0 by {
                        if x < k {
                            assert(next[x] == pre[x]);
                        }
                    }
                }
                if acc > 0xFFFFFFF {
                    proof {
                        if all_hex(body@) {
                            lemma_hex_value_grows(body@, k + 1);
                        }
                    }
                    return DEFAULT_ROLE_COLOR;
                }
                let v: u64 = acc as u64 * 16 + d as u64;
                if v > 0xFFFF_FFFF {
                    proof {
                        if all_hex(body@) {
                            lemma_hex_value_grows(body@, k + 1);
                        }
                    }
                    return DEFAULT_ROLE_COLOR;
                }
                acc = v as u32;
            },
        }
        k = k + 1;
    }
    assert(body@.subrange(0, m as int) =~= body@);
    if acc > MAX_ROLE_COLOR {
        return DEFAULT_ROLE_COLOR;
    }
    acc
}

} // verus!
