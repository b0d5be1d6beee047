use notion_fs::client::{NotionClient, NOTION_API_URL, NOTION_VERSION};
use notion_fs::json::Json;

fn text(s: &str) -> Json {
    Json::Text(s.to_string())
}

fn object(members: Vec<(&str, Json)>) -> Json {
    let mut rows = Vec::new();
    for (name, value) in members {
        rows.push((name.to_string(), value));
    }
    Json::Object(rows)
}

fn block(kind: &str, pieces: Vec<&str>) -> Json {
    let mut list = Vec::new();
    for piece in pieces {
        list.push(object(vec![("plain_text", text(piece))]));
    }
    object(vec![
        ("type", text(kind)),
        (kind, object(vec![("rich_text", Json::Array(list))])),
    ])
}

fn reply(results: Vec<Json>, next: Option<&str>) -> Json {
    let mut members = vec![("results", Json::Array(results))];
    if let Some(cursor) = next {
        members.push(("has_more", Json::Bool(true)));
        members.push(("next_cursor", text(cursor)));
    } else {
        members.push(("has_more", Json::Bool(false)));
        members.push(("next_cursor", Json::Null));
    }
    object(members)
}

#[test]
fn requests_carry_the_token_and_the_version() {
    let client = NotionClient::new("secret".to_string());
    assert_eq!(
        client.headers(),
        vec![
            ("authorization".to_string(), "Bearer secret".to_string()),
            ("Notion-Version".to_string(), "2022-06-28".to_string()),
            ("content-type".to_string(), "application/json".to_string()),
        ]
    );
    assert_eq!(NOTION_API_URL, "https://api.notion.com/v1");
    assert_eq!(NOTION_VERSION, "2022-06-28");
}

#[test]
fn database_query_collects_every_page() {
    let client = NotionClient::new(String::new());
    let mut query = client.query_database("db1");
    assert_eq!(query.url, "https://api.notion.com/v1/databases/db1/query");
    assert_eq!(query.body(), Json::Object(vec![]));
    query.receive(reply(vec![text("a"), text("b")], Some("c1")));
    assert!(!query.done);
    assert_eq!(query.body(), object(vec![("start_cursor", text("c1"))]));
    query.receive(reply(vec![text("c")], None));
    assert!(query.done);
    assert_eq!(query.results, vec![text("a"), text("b"), text("c")]);
}

#[test]
fn database_query_without_results_is_done() {
    let client = NotionClient::new(String::new());
    let mut query = client.query_database("db1");
    query.receive(object(vec![("object", text("error"))]));
    assert!(query.done);
    assert!(query.results.is_empty());
}

#[test]
fn more_to_come_without_a_cursor_starts_over() {
    let client = NotionClient::new(String::new());
    let mut query = client.query_database("db1");
    query.receive(reply(vec![], Some("c1")));
    query.receive(object(vec![("has_more", Json::Bool(true))]));
    assert!(!query.done);
    assert_eq!(query.start_cursor, None);
}

#[test]
fn page_text_joins_its_blocks() {
    let client = NotionClient::new(String::new());
    let mut query = client.get_page_blocks("p1");
    assert_eq!(query.next_url(), "https://api.notion.com/v1/blocks/p1/children");
    query.receive(&reply(
        vec![
            block("paragraph", vec!["The login ", "flow"]),
            object(vec![("type", text("divider")), ("divider", object(vec![]))]),
            block("heading_1", vec![]),
        ],
        Some("c2"),
    ));
    assert!(!query.done);
    assert_eq!(
        query.next_url(),
        "https://api.notion.com/v1/blocks/p1/children?start_cursor=c2"
    );
    query.receive(&reply(vec![block("quote", vec!["end"])], None));
    assert!(query.done);
    assert_eq!(query.markdown(), "The login flow\n\n\n\nend");
}

#[test]
fn page_text_does_not_depend_on_paging() {
    let client = NotionClient::new(String::new());
    let mut whole = client.get_page_blocks("p1");
    whole.receive(&reply(
        vec![block("paragraph", vec!["a"]), block("paragraph", vec!["b"])],
        None,
    ));
    let mut paged = client.get_page_blocks("p1");
    paged.receive(&reply(vec![block("paragraph", vec!["a"])], Some("c")));
    paged.receive(&reply(vec![block("paragraph", vec!["b"])], None));
    assert_eq!(whole.markdown(), paged.markdown());
    assert_eq!(paged.markdown(), "a\n\nb");
}

#[test]
fn page_without_text_is_empty() {
    let client = NotionClient::new(String::new());
    let mut query = client.get_page_blocks("p1");
    query.receive(&reply(vec![], None));
    assert_eq!(query.markdown(), "");
}
