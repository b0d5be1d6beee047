use notion_fs::json::{Json, JsonNumber};
use notion_fs::notion::{
    read_formula_date, read_number, read_people, read_select, read_status, read_timestamp,
    read_title, read_unique_id, read_url, Ticket,
};

fn text(s: &str) -> Json {
    Json::Text(s.to_string())
}

fn object(members: Vec<(&str, Json)>) -> Json {
    let mut rows = Vec::new();
    for (name, value) in members {
        rows.push((name.to_string(), value));
    }
    Json::Object(rows)
}

fn number(shown: &str, unsigned: Option<u64>) -> Json {
    Json::Number(JsonNumber { text: shown.to_string(), unsigned })
}

fn properties() -> Json {
    object(vec![
        (
            "AH",
            object(vec![("type", text("number")), ("number", number("4.5", None))]),
        ),
        (
            "Assignee",
            object(vec![(
                "people",
                Json::Array(vec![
                    object(vec![("name", text("Alice"))]),
                    object(vec![("name", text("Bob"))]),
                ]),
            )]),
        ),
        (
            "Created time",
            object(vec![("type", text("created_time")), ("created_time", text("2026-03-20"))]),
        ),
        (
            "ID",
            object(vec![
                ("type", text("unique_id")),
                (
                    "unique_id",
                    object(vec![("prefix", text("GB")), ("number", number("319", Some(319)))]),
                ),
            ]),
        ),
        (
            "Last edited time",
            object(vec![
                ("type", text("last_edited_time")),
                ("last_edited_time", text("2026-03-28")),
            ]),
        ),
        (
            "Name",
            object(vec![(
                "title",
                Json::Array(vec![object(vec![("plain_text", text("Fix login timeout"))])]),
            )]),
        ),
        ("Priority", object(vec![("select", object(vec![("name", text("High"))]))])),
        (
            "Status",
            object(vec![
                ("type", text("status")),
                ("status", object(vec![("name", text("In Progress"))])),
            ]),
        ),
    ])
}

fn page() -> Json {
    object(vec![
        ("id", text("page-1")),
        ("url", text("https://notion.so/page-1")),
        ("properties", properties()),
    ])
}

#[test]
fn page_becomes_a_ticket() {
    let expected = Ticket {
        ticket_id: "GB-319".to_string(),
        name: "Fix login timeout".to_string(),
        status: "In Progress".to_string(),
        priority: "High".to_string(),
        assignee: "Alice".to_string(),
        ah: Some("4.5".to_string()),
        created: "2026-03-20".to_string(),
        edited: "2026-03-28".to_string(),
        url: "https://notion.so/page-1".to_string(),
        page_id: "page-1".to_string(),
        description: String::new(),
    };
    assert_eq!(Ticket::from_page(&page()), expected);
}

#[test]
fn empty_page_becomes_a_blank_ticket() {
    assert_eq!(Ticket::from_page(&object(vec![])), Ticket::default());
    assert_eq!(Ticket::from_page(&Json::Null), Ticket::default());
    assert_eq!(Ticket::default().ah, None);
    assert_eq!(Ticket::default().name, "");
}

#[test]
fn readers_give_nothing_for_other_shapes() {
    let props = object(vec![
        ("Name", object(vec![("title", Json::Array(vec![]))])),
        ("Status", object(vec![("type", text("status")), ("status", Json::Null)])),
        ("Priority", Json::Bool(true)),
        ("Assignee", object(vec![("people", text("Alice"))])),
        ("AH", object(vec![("number", text("4"))])),
        ("Link", object(vec![("url", Json::Null)])),
        ("Sort Date", object(vec![("formula", object(vec![("date", Json::Null)]))])),
        ("Created time", object(vec![("created_time", text("2026-01-15"))])),
    ]);
    assert_eq!(read_title(Some(&props), "Name"), "");
    assert_eq!(read_status(Some(&props)), "");
    assert_eq!(read_select(Some(&props), "Priority"), "");
    assert_eq!(read_people(Some(&props), "Assignee"), "");
    assert_eq!(read_number(Some(&props), "AH"), None);
    assert_eq!(read_url(Some(&props), "Link"), "");
    assert_eq!(read_formula_date(Some(&props), "Sort Date"), "");
    assert_eq!(read_timestamp(Some(&props), "Created time"), "");
    assert_eq!(read_unique_id(Some(&props)), "");
    assert_eq!(read_title(None, "Name"), "");
}

#[test]
fn readers_read_their_property() {
    let props = object(vec![
        ("Status", object(vec![("type", text("select")), ("select", object(vec![("name", text("Done"))]))])),
        ("Link", object(vec![("url", text("https://example.org"))])),
        (
            "Sort Date",
            object(vec![("formula", object(vec![("date", object(vec![("start", text("2026-02-01"))]))]))]),
        ),
        ("AH", object(vec![("number", number("3", Some(3)))])),
        ("Edited", object(vec![("type", text("last_edited_time")), ("last_edited_time", text("2026-03-30"))])),
    ]);
    assert_eq!(read_status(Some(&props)), "Done");
    assert_eq!(read_url(Some(&props), "Link"), "https://example.org");
    assert_eq!(read_formula_date(Some(&props), "Sort Date"), "2026-02-01");
    assert_eq!(read_number(Some(&props), "AH"), Some("3".to_string()));
    assert_eq!(read_timestamp(Some(&props), "Edited"), "2026-03-30");
}

#[test]
fn first_unique_id_property_counts() {
    let id = |prefix: Json, n: Json| {
        object(vec![
            ("type", text("unique_id")),
            ("unique_id", object(vec![("prefix", prefix), ("number", n)])),
        ])
    };
    let props = object(vec![
        ("A", object(vec![("type", text("title"))])),
        ("B", id(text("X"), number("7", Some(7)))),
        ("C", id(text("Y"), number("8", Some(8)))),
    ]);
    assert_eq!(read_unique_id(Some(&props)), "X-7");
    let bare = object(vec![("B", id(Json::Null, Json::Null))]);
    assert_eq!(read_unique_id(Some(&bare)), "-0");
    let negative = object(vec![("B", id(text("X"), number("-1", None)))]);
    assert_eq!(read_unique_id(Some(&negative)), "X-0");
}

#[test]
fn ticket_renders_as_markdown() {
    let mut ticket = Ticket::from_page(&page());
    ticket.description = "The login flow times out.".to_string();
    let expected = "---\nticket: GB-319\ntitle: Fix login timeout\nstatus: In Progress\n\
        priority: High\nassignee: Alice\nah: 4.5\ncreated: 2026-03-20\nedited: 2026-03-28\n\
        url: https://notion.so/page-1\n---\n\nThe login flow times out.\n";
    assert_eq!(String::from_utf8(ticket.render()).unwrap(), expected);
}

#[test]
fn ticket_without_description_ends_with_its_front_matter() {
    let expected = "---\nticket: \ntitle: \nstatus: \npriority: \nassignee: \nah:\ncreated: \n\
        edited: \nurl: \n---\n";
    assert_eq!(String::from_utf8(Ticket::default().render()).unwrap(), expected);
}

#[test]
fn whole_hours_have_one_decimal() {
    let mut ticket = Ticket::default();
    ticket.ah = Some("3".to_string());
    assert!(String::from_utf8(ticket.render()).unwrap().contains("\nah: 3.0\n"));
    ticket.ah = Some("0.25".to_string());
    assert!(String::from_utf8(ticket.render()).unwrap().contains("\nah: 0.25\n"));
}

#[test]
fn rendering_is_utf8() {
    let mut ticket = Ticket::default();
    ticket.name = "Đặng 日本".to_string();
    assert!(String::from_utf8(ticket.render()).unwrap().contains("title: Đặng 日本\n"));
}

#[test]
fn different_tickets_render_differently() {
    let a = Ticket::from_page(&page());
    let mut b = a.clone();
    assert_eq!(a.render(), b.render());
    b.description = "x".to_string();
    assert_ne!(a.render(), b.render());
    let mut c = a.clone();
    c.priority = "Low".to_string();
    assert_ne!(a.render(), c.render());
}
