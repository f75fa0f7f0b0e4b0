use std::collections::HashMap;

use tulpje::emoji::{count_emojis, emojis_from_matches, parse_emojis_from_string, parse_u64, Emoji, StatsSort};

fn emoji(id: u64) -> Emoji {
    Emoji {
        id,
        guild_id: 0,
        name: String::from("foo"),
        animated: false,
    }
}

#[test]
fn parse_emojis_from_string_test() {
    let result = parse_emojis_from_string(0, "<a:animated:0> <:static:1>");
    assert_eq!(
        result,
        vec![
            Emoji {
                id: 0,
                guild_id: 0,
                name: String::from("animated"),
                animated: true
            },
            Emoji {
                id: 1,
                guild_id: 0,
                name: String::from("static"),
                animated: false
            }
        ]
    )
}

#[test]
fn count_emojis_test() {
    let result: HashMap<Emoji, i16> = count_emojis(vec![emoji(0), emoji(0), emoji(1)]).into_iter().collect();
    assert_eq!(result, HashMap::from([(emoji(0), 2), (emoji(1), 1)]));
}

#[test]
fn count_emojis_empty() {
    assert!(count_emojis(vec![]).is_empty());
}

#[test]
fn count_emojis_keeps_one_entry_per_emoji() {
    let result = count_emojis(vec![emoji(3), emoji(4), emoji(3), emoji(3)]);
    assert_eq!(result.len(), 2);
    let map: HashMap<Emoji, i16> = result.into_iter().collect();
    assert_eq!(map[&emoji(3)], 3);
    assert_eq!(map[&emoji(4)], 1);
}

#[test]
fn parse_emojis_ignores_plain_text_and_keeps_guild() {
    let result = parse_emojis_from_string(9, "hi :smile: <:wave:123456789012345678> <b:x:1>");
    assert_eq!(
        result,
        vec![Emoji {
            id: 123456789012345678,
            guild_id: 9,
            name: String::from("wave"),
            animated: false
        }]
    );
}

#[test]
fn parse_emojis_skips_identifier_too_large() {
    let result = parse_emojis_from_string(0, "<:big:99999999999999999999> <:ok:5>");
    assert_eq!(result.len(), 1);
    assert_eq!(result[0].id, 5);
}

#[test]
fn emojis_from_matches_reads_marker_and_digits() {
    let matches = vec![
        (String::from("a"), String::from("dance"), String::from("42")),
        (String::from(""), String::from("still"), String::from("7")),
        (String::from(""), String::from("bad"), String::from("x1")),
    ];
    let result = emojis_from_matches(3, &matches);
    assert_eq!(result.len(), 2);
    assert_eq!(result[0], Emoji { id: 42, guild_id: 3, name: String::from("dance"), animated: true });
    assert_eq!(result[1], Emoji { id: 7, guild_id: 3, name: String::from("still"), animated: false });
}

#[test]
fn parse_u64_limits() {
    assert_eq!(parse_u64("18446744073709551615"), Some(u64::MAX));
    assert_eq!(parse_u64("18446744073709551616"), None);
    assert_eq!(parse_u64(""), None);
    assert_eq!(parse_u64("12a"), None);
    assert_eq!(parse_u64("0042"), Some(42));
}

#[test]
fn stats_sort_ids_round_trip() {
    for sort in [StatsSort::CountDesc, StatsSort::CountAsc, StatsSort::DateDesc, StatsSort::DateAsc] {
        assert_eq!(StatsSort::try_from_string(sort.id()).ok(), Some(sort));
    }
    assert_eq!(StatsSort::CountDesc.id(), "count_desc");
    assert_eq!(StatsSort::DateAsc.id(), "date_asc");
    assert_eq!(StatsSort::CountAsc.name(), "Least Used");
    assert_eq!(StatsSort::DateDesc.name(), "Most Recent");
}

#[test]
fn stats_sort_unknown() {
    let err = StatsSort::try_from_string("count").err().unwrap();
    assert_eq!(err.sort, "count");
    assert_eq!(err.message(), "unknown sort count");
}
