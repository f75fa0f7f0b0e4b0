use tulpje::category::{get_fronter_category, NoFronterCategoryError};
use tulpje::channels::{get_channel_ops, ChannelOperation, FronterChannel};
use tulpje::names::{alter_role_name, is_alter_role_name, parse_role_color, DEFAULT_ROLE_COLOR};
use tulpje::roles::{get_ops, ChangeOperation, MemberRole};
use tulpje::snapshots::{
    channels_by_name, fronter_name, get_current_roles, get_desired_fronters, get_desired_roles, get_fronter_channels,
    GuildChannel, PlatformRole, RegistryMember,
};
use tulpje::summary::{summarize, OpKind, RunSummary};

fn role(id: Option<u64>, name: &str, color: u32) -> MemberRole {
    MemberRole { id, name: String::from(name), color }
}

fn chan(id: u64, name: &str, position: u16) -> FronterChannel {
    FronterChannel { id, name: String::from(name), position }
}

fn names(list: &[&str]) -> Vec<String> {
    list.iter().map(|s| String::from(*s)).collect()
}

#[test]
fn roles_delete_and_create() {
    let current = vec![role(Some(1), "A", 0x111), role(Some(2), "B", 0x222)];
    let desired = vec![role(None, "A", 0x111), role(None, "C", 0x333)];
    let ops = get_ops(&current, &desired);
    assert_eq!(
        ops,
        vec![
            ChangeOperation::Delete { id: 2, name: String::from("B") },
            ChangeOperation::Create { name: String::from("C"), color: 0x333 },
        ]
    );
}

#[test]
fn roles_colour_update() {
    let current = vec![role(Some(1), "A", 0x111)];
    let desired = vec![role(None, "A", 0x999)];
    let ops = get_ops(&current, &desired);
    assert_eq!(ops, vec![ChangeOperation::Update { id: 1, name: String::from("A"), color: 0x999 }]);
}

#[test]
fn roles_partition_by_name() {
    let current = vec![role(Some(1), "A", 1), role(Some(2), "B", 2), role(Some(3), "D", 4)];
    let desired = vec![role(None, "B", 2), role(None, "C", 3), role(None, "D", 5), role(None, "E", 6)];
    let ops = get_ops(&current, &desired);
    let mut creates = Vec::new();
    let mut deletes = Vec::new();
    let mut updates = Vec::new();
    for op in &ops {
        match op {
            ChangeOperation::Create { name, .. } => creates.push(name.clone()),
            ChangeOperation::Delete { name, .. } => deletes.push(name.clone()),
            ChangeOperation::Update { name, .. } => updates.push(name.clone()),
        }
    }
    assert_eq!(creates, names(&["C", "E"]));
    assert_eq!(deletes, names(&["A"]));
    assert_eq!(updates, names(&["D"]));
}

#[test]
fn roles_second_run_is_empty() {
    let current = vec![role(Some(1), "A", 1), role(Some(2), "B", 2)];
    let desired = vec![role(None, "B", 7), role(None, "C", 3)];
    let ops = get_ops(&current, &desired);
    let mut after: Vec<MemberRole> = current.clone();
    let mut next_id = 10;
    for op in &ops {
        match op {
            ChangeOperation::Delete { id, .. } => after.retain(|r| r.id != Some(*id)),
            ChangeOperation::Create { name, color } => {
                after.push(role(Some(next_id), name, *color));
                next_id += 1;
            }
            ChangeOperation::Update { id, color, .. } => {
                for r in after.iter_mut() {
                    if r.id == Some(*id) {
                        r.color = *color;
                    }
                }
            }
        }
    }
    assert!(get_ops(&after, &desired).is_empty());
}

#[test]
fn roles_nothing_to_do_when_equal() {
    let current = vec![role(Some(1), "A", 1)];
    let desired = vec![role(None, "A", 1)];
    assert!(get_ops(&current, &desired).is_empty());
    assert!(get_ops(&vec![], &vec![]).is_empty());
}

#[test]
fn channels_follow_registry_order() {
    let current = vec![chan(10, "X", 2), chan(11, "Y", 0)];
    let desired = names(&["X", "Y", "Z"]);
    let ops = get_channel_ops(&current, &desired);
    assert_eq!(
        ops,
        vec![
            ChannelOperation::Create { name: String::from("Z"), position: 2 },
            ChannelOperation::Update { id: 10, name: String::from("X"), position: 0 },
            ChannelOperation::Update { id: 11, name: String::from("Y"), position: 1 },
        ]
    );
}

#[test]
fn channels_positions_are_indices() {
    let current = vec![chan(1, "c", 0), chan(2, "gone", 1), chan(3, "a", 5)];
    let desired = names(&["a", "b", "c", "d"]);
    let ops = get_channel_ops(&current, &desired);
    for op in &ops {
        match op {
            ChannelOperation::Create { name, position } | ChannelOperation::Update { name, position, .. } => {
                assert_eq!(&desired[*position as usize], name)
            }
            ChannelOperation::Delete { name, .. } => assert_eq!(name, "gone"),
        }
    }
    assert_eq!(ops.len(), 5);
}

#[test]
fn channels_second_run_is_empty() {
    let current = vec![chan(1, "b", 0), chan(2, "old", 1)];
    let desired = names(&["a", "b"]);
    let ops = get_channel_ops(&current, &desired);
    let mut after: Vec<FronterChannel> = current.clone();
    for op in &ops {
        match op {
            ChannelOperation::Delete { id, .. } => after.retain(|c| c.id != *id),
            ChannelOperation::Create { name, position } => after.push(chan(99, name, *position)),
            ChannelOperation::Update { id, position, .. } => {
                for c in after.iter_mut() {
                    if c.id == *id {
                        c.position = *position;
                    }
                }
            }
        }
    }
    assert!(get_channel_ops(&after, &desired).is_empty());
}

#[test]
fn role_names_drop_qualifier() {
    assert_eq!(alter_role_name("Sam (he/him)"), "Sam (Alter)");
    assert_eq!(alter_role_name("Sam"), "Sam (Alter)");
    assert_eq!(alter_role_name("Sam(x) (y)"), "Sam(x) (Alter)");
    assert_eq!(alter_role_name(""), " (Alter)");
    assert!(is_alter_role_name("Sam (Alter)"));
    assert!(!is_alter_role_name("Sam"));
    assert!(!is_alter_role_name("(Alter)"));
}

#[test]
fn role_colours() {
    assert_eq!(parse_role_color(&Some(String::from("#ff8800"))), 0xff8800);
    assert_eq!(parse_role_color(&Some(String::from("ABCDEF"))), 0xabcdef);
    assert_eq!(parse_role_color(&Some(String::from("##+1a"))), 0x1a);
    assert_eq!(parse_role_color(&Some(String::from("#zz0000"))), DEFAULT_ROLE_COLOR);
    assert_eq!(parse_role_color(&Some(String::from("#"))), DEFAULT_ROLE_COLOR);
    assert_eq!(parse_role_color(&Some(String::from("1ffffffff"))), DEFAULT_ROLE_COLOR);
    assert_eq!(parse_role_color(&Some(String::from("ffffffff"))), DEFAULT_ROLE_COLOR);
    assert_eq!(parse_role_color(&Some(String::from("#1000000"))), DEFAULT_ROLE_COLOR);
    assert_eq!(parse_role_color(&Some(String::from("#ffffff"))), 0xffffff);
    assert_eq!(parse_role_color(&Some(String::from("#00ffffff"))), 0xffffff);
    assert_eq!(parse_role_color(&None), DEFAULT_ROLE_COLOR);
    assert_eq!(DEFAULT_ROLE_COLOR, 0x99AAB5);
}

#[test]
fn current_roles_keep_managed_ones() {
    let guild = vec![
        PlatformRole { id: 1, name: String::from("@everyone"), color: 0 },
        PlatformRole { id: 2, name: String::from("Sam (Alter)"), color: 5 },
        PlatformRole { id: 3, name: String::from("Sam (Alter)"), color: 6 },
        PlatformRole { id: 4, name: String::from("Kim (Alter)"), color: 7 },
    ];
    let current = get_current_roles(&guild);
    assert_eq!(current, vec![role(Some(3), "Sam (Alter)", 6), role(Some(4), "Kim (Alter)", 7)]);
}

#[test]
fn desired_roles_from_members() {
    let members = vec![
        RegistryMember { name: String::from("sam"), display_name: Some(String::from("Sam (he/him)")), color: Some(String::from("#010203")) },
        RegistryMember { name: String::from("Kim"), display_name: None, color: None },
        RegistryMember { name: String::from("Sam"), display_name: None, color: Some(String::from("ffffff")) },
    ];
    let desired = get_desired_roles(&members);
    assert_eq!(desired, vec![role(None, "Sam (Alter)", 0xffffff), role(None, "Kim (Alter)", DEFAULT_ROLE_COLOR)]);
}

#[test]
fn fronter_channels_under_category() {
    let channels = vec![
        GuildChannel { id: 1, name: String::from("current fronters"), position: 0, parent_id: None, is_category: true },
        GuildChannel { id: 2, name: String::from("Sam"), position: 1, parent_id: Some(1), is_category: false },
        GuildChannel { id: 3, name: String::from("general"), position: 0, parent_id: Some(9), is_category: false },
        GuildChannel { id: 4, name: String::from("Sam"), position: 2, parent_id: Some(1), is_category: false },
        GuildChannel { id: 5, name: String::from("Kim"), position: 0, parent_id: Some(1), is_category: false },
    ];
    let under = get_fronter_channels(&channels, 1);
    assert_eq!(under, vec![chan(2, "Sam", 1), chan(4, "Sam", 2), chan(5, "Kim", 0)]);
    assert_eq!(channels_by_name(&under), vec![chan(4, "Sam", 2), chan(5, "Kim", 0)]);
    assert!(get_fronter_channels(&channels, 7).is_empty());
    assert!(channels_by_name(&vec![]).is_empty());
}

#[test]
fn desired_fronters_once_each_in_order() {
    assert_eq!(get_desired_fronters(&names(&["b", "a", "b", "c", "a"])), names(&["b", "a", "c"]));
    assert!(get_desired_fronters(&vec![]).is_empty());
}

#[test]
fn category_found_case_insensitively() {
    let channels = vec![
        GuildChannel { id: 1, name: String::from("CURRENT FRONTERS"), position: 0, parent_id: None, is_category: false },
        GuildChannel { id: 2, name: String::from("Current Fronters"), position: 1, parent_id: None, is_category: true },
        GuildChannel { id: 3, name: String::from("Other"), position: 2, parent_id: None, is_category: true },
    ];
    assert_eq!(get_fronter_category(&channels, &None, 5, &String::from("g")).ok(), Some(1));
    assert_eq!(get_fronter_category(&channels, &Some(String::from("OTHER")), 5, &String::from("g")).ok(), Some(2));
}

#[test]
fn category_missing() {
    let channels = vec![GuildChannel { id: 1, name: String::from("x"), position: 0, parent_id: None, is_category: true }];
    let err = get_fronter_category(&channels, &None, 42, &String::from("My Server")).err().unwrap();
    assert_eq!(err, NoFronterCategoryError { id: 42, name: String::from("My Server") });
    assert_eq!(err.message(), "No fronter category for server 'My Server' (42)");
}

#[test]
fn summary_counts_successes_by_kind() {
    let kinds = vec![OpKind::Delete, OpKind::Create, OpKind::Create, OpKind::Update, OpKind::Update];
    let done = vec![true, true, false, true, true];
    assert_eq!(summarize(&kinds, &done), RunSummary { created: 1, deleted: 1, updated: 2 });
    assert_eq!(summarize(&vec![], &vec![]), RunSummary { created: 0, deleted: 0, updated: 0 });
    let op = ChangeOperation::Update { id: 1, name: String::from("A"), color: 2 };
    assert_eq!(op.kind(), OpKind::Update);
    let op = ChannelOperation::Delete { id: 1, name: String::from("A") };
    assert_eq!(op.kind(), OpKind::Delete);
}

#[test]
fn fronter_name_prefers_display_name() {
    let shown = RegistryMember { name: String::from("sam"), display_name: Some(String::from("Sam (he/him)")), color: None };
    let plain = RegistryMember { name: String::from("kim"), display_name: None, color: None };
    assert_eq!(fronter_name(&shown), "Sam (he/him)");
    assert_eq!(fronter_name(&plain), "kim");
}
