//! Tickets: how they are read from pages of the Notion API, and how they are rendered as Markdown.

use vstd::prelude::*;
use vstd::utf8::{encode_utf8, encode_utf8_decode_utf8};

use crate::json::{
    as_text, first, first_item, member, member_of, owned_text, text_of, text_or_empty, value_of,
    Json,
};
use crate::text::{decimal, law_decimal_spells_its_number, push_decimal, same_text, spelled};

verus! {

// ---------------------------------------------------------------------------
// Property readers
// ---------------------------------------------------------------------------

/// The plain text of the first piece of a title property.
pub open spec fn title_of(props: Option<Json>, key: Seq<char>) -> Seq<char> {
    text_or_empty(
        member_of(first_item(member_of(member_of(props, key), "title"@)), "plain_text"@),
    )
}

/// The name under the member that a property's own type names.
pub open spec fn status_of(props: Option<Json>) -> Seq<char> {
    let prop = member_of(props, "Status"@);
    let kind = text_or_empty(member_of(prop, "type"@));
    text_or_empty(member_of(member_of(prop, kind), "name"@))
}

/// The name of a select property's choice.
pub open spec fn select_of(props: Option<Json>, key: Seq<char>) -> Seq<char> {
    text_or_empty(member_of(member_of(member_of(props, key), "select"@), "name"@))
}

/// The name of the first person of a people property.
pub open spec fn people_of(props: Option<Json>, key: Seq<char>) -> Seq<char> {
    text_or_empty(member_of(first_item(member_of(member_of(props, key), "people"@)), "name"@))
}

/// Whether a property is of the type `unique_id`.
pub open spec fn is_unique_id(prop: Json) -> bool {
    text_of(member_of(Some(prop), "type"@)) == Some("unique_id"@)
}

/// The whole number without a sign that a value holds, and zero of any other value.
pub open spec fn unsigned_or_zero(value: Option<Json>) -> nat {
    match value {
        Some(Json::Number(n)) => match n.unsigned {
            Some(u) => u as nat,
            None => 0,
        },
        _ => 0,
    }
}

/// The identifier that a property of type `unique_id` spells: its prefix, a hyphen, its number.
pub open spec fn unique_id_text(prop: Json) -> Seq<char> {
    let id = member_of(Some(prop), "unique_id"@);
    text_or_empty(member_of(id, "prefix"@)) + "-"@ + decimal(
        unsigned_or_zero(member_of(id, "number"@)),
    )
}

/// The identifier of the first of the members whose type is `unique_id`.
pub open spec fn first_unique_id(members: Seq<(String, Json)>) -> Seq<char>
    decreases members.len(),
{
    if members.len() == 0 {
        Seq::empty()
    } else if is_unique_id(members[0].1) {
        unique_id_text(members[0].1)
    } else {
        first_unique_id(members.drop_first())
    }
}

/// The identifier among the properties.
pub open spec fn unique_id_of(props: Option<Json>) -> Seq<char> {
    match props {
        Some(Json::Object(members)) => first_unique_id(members@),
        _ => Seq::empty(),
    }
}

/// The address of a url property.
pub open spec fn url_of(props: Option<Json>, key: Seq<char>) -> Seq<char> {
    text_or_empty(member_of(member_of(props, key), "url"@))
}

/// The decimal text of a number property.
pub open spec fn number_of(props: Option<Json>, key: Seq<char>) -> Option<Seq<char>> {
    match member_of(member_of(props, key), "number"@) {
        Some(Json::Number(n)) => Some(n.text@),
        _ => None,
    }
}

/// The text under the member that a property's own type names.
pub open spec fn timestamp_of(props: Option<Json>, key: Seq<char>) -> Seq<char> {
    let prop = member_of(props, key);
    text_or_empty(member_of(prop, text_or_empty(member_of(prop, "type"@))))
}

/// The start of the date that a formula property computes.
pub open spec fn formula_date_of(props: Option<Json>, key: Seq<char>) -> Seq<char> {
    text_or_empty(
        member_of(
            member_of(member_of(member_of(props, key), "formula"@), "date"@),
            "start"@,
        ),
    )
}

/// Reads the plain text of the first piece of a title property.
pub fn read_title(props: Option<&Json>, key: &str) -> (title: String)
    ensures
        title@ == title_of(value_of(props), key@),
{
    owned_text(member(first(member(member(props, key), "title")), "plain_text"))
}

/// Reads the name of the `Status` property, whatever type of property it is.
pub fn read_status(props: Option<&Json>) -> (status: String)
    ensures
        status@ == status_of(value_of(props)),
{
    let prop = member(props, "Status");
    let kind = owned_text(member(prop, "type"));
    owned_text(member(member(prop, kind.as_str()), "name"))
}

/// Reads the name of a select property's choice.
pub fn read_select(props: Option<&Json>, key: &str) -> (choice: String)
    ensures
        choice@ == select_of(value_of(props), key@),
{
    owned_text(member(member(member(props, key), "select"), "name"))
}

/// Reads the name of the first person of a people property.
pub fn read_people(props: Option<&Json>, key: &str) -> (name: String)
    ensures
        name@ == people_of(value_of(props), key@),
{
    owned_text(member(first(member(member(props, key), "people")), "name"))
}

/// Reads the identifier from the first property of type `unique_id`.
pub fn read_unique_id(props: Option<&Json>) -> (id: String)
    ensures
        id@ == unique_id_of(value_of(props)),
{
    if let Some(Json::Object(members)) = props {
        let mut i: usize = 0;
        assert(members@.skip(0) == members@);
        while i < members.len()
            invariant
                i <= members@.len(),
                value_of(props) == Some(Json::Object(*members)),
                first_unique_id(members@) == first_unique_id(members@.skip(i as int)),
            decreases members@.len() - i,
        {
            assert(members@.skip(i as int)[0] == members@[i as int]);
            assert(members@.skip(i as int).drop_first() == members@.skip(i + 1));
            let prop = Some(&members[i].1);
            let typed = match as_text(member(prop, "type")) {
                Some(kind) => same_text(kind, "unique_id"),
                None => false,
            };
            if typed {
                let unique_id = member(prop, "unique_id");
                let number: u64 = match member(unique_id, "number") {
                    Some(Json::Number(n)) => match n.unsigned {
                        Some(u) => u,
                        None => 0,
                    },
                    _ => 0,
                };
                let mut id = owned_text(member(unique_id, "prefix"));
                id.push_str("-");
                push_decimal(&mut id, number);
                return id;
            }
            i = i + 1;
        }
    }
    String::new()
}

/// Reads the address of a url property.
pub fn read_url(props: Option<&Json>, key: &str) -> (url: String)
    ensures
        url@ == url_of(value_of(props), key@),
{
    owned_text(member(member(props, key), "url"))
}

/// Reads the decimal text of a number property.
pub fn read_number(props: Option<&Json>, key: &str) -> (number: Option<String>)
    ensures
        match number {
            Some(n) => number_of(value_of(props), key@) == Some(n@),
            None => number_of(value_of(props), key@) is None,
        },
{
    match member(member(props, key), "number") {
        Some(Json::Number(n)) => Some(n.text.clone()),
        _ => None,
    }
}

/// Reads the text of a timestamp property, whatever type of timestamp it is.
pub fn read_timestamp(props: Option<&Json>, key: &str) -> (timestamp: String)
    ensures
        timestamp@ == timestamp_of(value_of(props), key@),
{
    let prop = member(props, key);
    let kind = owned_text(member(prop, "type"));
    owned_text(member(prop, kind.as_str()))
}

/// Reads the start of the date that a formula property computes.
pub fn read_formula_date(props: Option<&Json>, key: &str) -> (date: String)
    ensures
        date@ == formula_date_of(value_of(props), key@),
{
    owned_text(member(member(member(member(props, key), "formula"), "date"), "start"))
}

// ---------------------------------------------------------------------------
// Ticket
// ---------------------------------------------------------------------------

/// A ticket.
#[derive(Debug, PartialEq, Eq)]
pub struct Ticket {
    pub ticket_id: String,
    pub name: String,
    pub status: String,
    pub priority: String,
    pub assignee: String,
    /// The decimal text of the number of hours.
    pub ah: Option<String>,
    pub created: String,
    pub edited: String,
    pub url: String,
    pub page_id: String,
    pub description: String,
}

/// What a ticket holds.
#[verifier::ext_equal]
pub struct TicketView {
    pub ticket_id: Seq<char>,
    pub name: Seq<char>,
    pub status: Seq<char>,
    pub priority: Seq<char>,
    pub assignee: Seq<char>,
    pub ah: Option<Seq<char>>,
    pub created: Seq<char>,
    pub edited: Seq<char>,
    pub url: Seq<char>,
    pub page_id: Seq<char>,
    pub description: Seq<char>,
}

impl View for Ticket {
    type V = TicketView;

    open spec fn view(&self) -> TicketView {
        TicketView {
            ticket_id: self.ticket_id@,
            name: self.name@,
            status: self.status@,
            priority: self.priority@,
            assignee: self.assignee@,
            ah: match self.ah {
                Some(hours) => Some(hours@),
                None => None,
            },
            created: self.created@,
            edited: self.edited@,
            url: self.url@,
            page_id: self.page_id@,
            description: self.description@,
        }
    }
}

impl DeepView for Ticket {
    type V = TicketView;

    open spec fn deep_view(&self) -> TicketView {
        self@
    }
}

impl Clone for Ticket {
    fn clone(&self) -> (copy: Self)
        ensures
            copy@ == self@,
    {
        Ticket {
            ticket_id: self.ticket_id.clone(),
            name: self.name.clone(),
            status: self.status.clone(),
            priority: self.priority.clone(),
            assignee: self.assignee.clone(),
            ah: match &self.ah {
                Some(hours) => Some(hours.clone()),
                None => None,
            },
            created: self.created.clone(),
            edited: self.edited.clone(),
            url: self.url.clone(),
            page_id: self.page_id.clone(),
            description: self.description.clone(),
        }
    }
}

/// The ticket that holds nothing.
pub open spec fn blank_ticket() -> TicketView {
    TicketView {
        ticket_id: Seq::empty(),
        name: Seq::empty(),
        status: Seq::empty(),
        priority: Seq::empty(),
        assignee: Seq::empty(),
        ah: None,
        created: Seq::empty(),
        edited: Seq::empty(),
        url: Seq::empty(),
        page_id: Seq::empty(),
        description: Seq::empty(),
    }
}

impl Default for Ticket {
    fn default() -> (ticket: Self)
        ensures
            ticket@ == blank_ticket(),
    {
        Ticket {
            ticket_id: String::new(),
            name: String::new(),
            status: String::new(),
            priority: String::new(),
            assignee: String::new(),
            ah: None,
            created: String::new(),
            edited: String::new(),
            url: String::new(),
            page_id: String::new(),
            description: String::new(),
        }
    }
}

/// The ticket that a page of a ticket database describes. Its description is on the page itself.
pub open spec fn ticket_of_page(page: Json) -> TicketView {
    let props = member_of(Some(page), "properties"@);
    TicketView {
        ticket_id: unique_id_of(props),
        name: title_of(props, "Name"@),
        status: status_of(props),
        priority: select_of(props, "Priority"@),
        assignee: people_of(props, "Assignee"@),
        ah: number_of(props, "AH"@),
        created: timestamp_of(props, "Created time"@),
        edited: timestamp_of(props, "Last edited time"@),
        url: text_or_empty(member_of(Some(page), "url"@)),
        page_id: text_or_empty(member_of(Some(page), "id"@)),
        description: Seq::empty(),
    }
}

/// A number of hours as it is rendered: a whole number with one decimal.
pub open spec fn hours_text(hours: Seq<char>) -> Seq<char> {
    if hours.contains('.') {
        hours
    } else {
        hours + ".0"@
    }
}

/// The line that gives the number of hours.
pub open spec fn hours_line(hours: Option<Seq<char>>) -> Seq<char> {
    match hours {
        Some(h) => "ah: "@ + hours_text(h),
        None => "ah:"@,
    }
}

/// The lines of a ticket's front matter.
pub open spec fn front_matter(t: TicketView) -> Seq<Seq<char>> {
    seq![
        "---"@,
        "ticket: "@ + t.ticket_id,
        "title: "@ + t.name,
        "status: "@ + t.status,
        "priority: "@ + t.priority,
        "assignee: "@ + t.assignee,
        hours_line(t.ah),
        "created: "@ + t.created,
        "edited: "@ + t.edited,
        "url: "@ + t.url,
        "---"@,
    ]
}

/// The text of some lines, each with a line feed at its end.
pub open spec fn unlines(lines: Seq<Seq<char>>) -> Seq<char>
    decreases lines.len(),
{
    if lines.len() == 0 {
        Seq::empty()
    } else {
        lines[0].push('\n') + unlines(lines.drop_first())
    }
}

/// What follows the front matter: nothing, or the description after an empty line.
pub open spec fn description_text(description: Seq<char>) -> Seq<char> {
    if description.len() == 0 {
        Seq::empty()
    } else {
        seq!['\n'] + description + seq!['\n']
    }
}

/// A ticket as Markdown.
pub open spec fn ticket_text(t: TicketView) -> Seq<char> {
    unlines(front_matter(t)) + description_text(t.description)
}

/// One more line goes to the end of the text.
pub proof fn lemma_unlines_push(lines: Seq<Seq<char>>, line: Seq<char>)
    ensures
        unlines(lines.push(line)) == unlines(lines) + line.push('\n'),
    decreases lines.len(),
{
    if lines.len() == 0 {
        assert(lines.push(line).drop_first() == Seq::<Seq<char>>::empty());
        assert(unlines(lines.push(line).drop_first()) == Seq::<char>::empty());
    } else {
        assert(lines.push(line).drop_first() == lines.drop_first().push(line));
        lemma_unlines_push(lines.drop_first(), line);
        assert(unlines(lines.push(line)) == lines[0].push('\n') + (unlines(lines.drop_first())
            + line.push('\n')));
    }
}

/// Appends a label, a value and a line feed.
fn push_line(out: &mut String, label: &str, value: &str, Ghost(lines): Ghost<Seq<Seq<char>>>)
    requires
        old(out)@ == unlines(lines),
    ensures
        final(out)@ == unlines(lines.push(label@ + value@)),
{
    out.push_str(label);
    out.push_str(value);
    out.push('\n');
    proof {
        lemma_unlines_push(lines, label@ + value@);
    }
}

/// Writes a number of hours as it is rendered.
fn render_hours(hours: &str) -> (rendered: String)
    ensures
        rendered@ == hours_text(hours@),
{
    let mut rendered = String::new();
    let mut decimals = false;
    for c in it: hours.chars()
        invariant
            it.seq() == hours@,
            rendered@ == hours@.take(it.index()),
            decimals == hours@.take(it.index()).contains('.'),
    {
        proof {
            let before = hours@.take(it.index());
            let after = hours@.take(it.index() + 1);
            assert(after == before.push(c));
            if c == '.' {
                assert(after[it.index()] == '.');
            }
            if before.contains('.') {
                let i = choose|i: int| 0 <= i < before.len() && before[i] == '.';
                assert(after[i] == '.');
            }
            if after.contains('.') && c != '.' {
                let i = choose|i: int| 0 <= i < after.len() && after[i] == '.';
                assert(before[i] == '.');
            }
        }
        rendered.push(c);
        if c == '.' {
            decimals = true;
        }
    }
    assert(hours@.take(hours@.len() as int) == hours@);
    if !decimals {
        rendered.push_str(".0");
    }
    rendered
}

impl Ticket {
    /// Reads a ticket from a page of a ticket database.
    pub fn from_page(page: &Json) -> (ticket: Self)
        ensures
            ticket@ == ticket_of_page(*page),
    {
        let props = member(Some(page), "properties");
        Ticket {
            ticket_id: read_unique_id(props),
            name: read_title(props, "Name"),
            status: read_status(props),
            priority: read_select(props, "Priority"),
            assignee: read_people(props, "Assignee"),
            ah: read_number(props, "AH"),
            created: read_timestamp(props, "Created time"),
            edited: read_timestamp(props, "Last edited time"),
            url: owned_text(member(Some(page), "url")),
            page_id: owned_text(member(Some(page), "id")),
            description: String::new(),
        }
    }

    /// Renders the ticket as Markdown: front matter, then the description where there is one.
    pub fn render(&self) -> (bytes: Vec<u8>)
        ensures
            bytes@ == encode_utf8(ticket_text(self@)),
    {
        let mut out = String::new();
        let ghost all = front_matter(self@);
        let ghost none: Seq<Seq<char>> = Seq::empty();
        assert(all.take(0) == none);
        push_line(&mut out, "---", "", Ghost(all.take(0)));
        assert("---"@ + ""@ == "---"@) by {
            reveal_strlit("");
        }
        assert(all.take(0).push(all[0]) == all.take(1));
        push_line(&mut out, "ticket: ", self.ticket_id.as_str(), Ghost(all.take(1)));
        assert(all.take(1).push(all[1]) == all.take(2));
        push_line(&mut out, "title: ", self.name.as_str(), Ghost(all.take(2)));
        assert(all.take(2).push(all[2]) == all.take(3));
        push_line(&mut out, "status: ", self.status.as_str(), Ghost(all.take(3)));
        assert(all.take(3).push(all[3]) == all.take(4));
        push_line(&mut out, "priority: ", self.priority.as_str(), Ghost(all.take(4)));
        assert(all.take(4).push(all[4]) == all.take(5));
        push_line(&mut out, "assignee: ", self.assignee.as_str(), Ghost(all.take(5)));
        assert(all.take(5).push(all[5]) == all.take(6));
        match &self.ah {
            Some(hours) => {
                let rendered = render_hours(hours.as_str());
                push_line(&mut out, "ah: ", rendered.as_str(), Ghost(all.take(6)));
            },
            None => {
                push_line(&mut out, "ah:", "", Ghost(all.take(6)));
                assert("ah:"@ + ""@ == "ah:"@) by {
                    reveal_strlit("");
                }
            },
        }
        assert(all.take(6).push(all[6]) == all.take(7));
        push_line(&mut out, "created: ", self.created.as_str(), Ghost(all.take(7)));
        assert(all.take(7).push(all[7]) == all.take(8));
        push_line(&mut out, "edited: ", self.edited.as_str(), Ghost(all.take(8)));
        assert(all.take(8).push(all[8]) == all.take(9));
        push_line(&mut out, "url: ", self.url.as_str(), Ghost(all.take(9)));
        assert(all.take(9).push(all[9]) == all.take(10));
        push_line(&mut out, "---", "", Ghost(all.take(10)));
        assert(all.take(10).push(all[10]) == all);
        if !self.description.as_str().is_empty() {
            let ghost head = out@;
            out.push('\n');
            out.push_str(self.description.as_str());
            out.push('\n');
            assert(out@ == head + (seq!['\n'] + self.description@ + seq!['\n']));
        } else {
            assert(out@ == out@ + Seq::<char>::empty());
        }
        out.as_str().as_bytes_vec()
    }
}

/// Whether a text stays on one line.
pub open spec fn one_line(text: Seq<char>) -> bool {
    !text.contains('\n')
}

/// Whether every field of a ticket's front matter stays on one line.
pub open spec fn plain_fields(t: TicketView) -> bool {
    &&& one_line(t.ticket_id)
    &&& one_line(t.name)
    &&& one_line(t.status)
    &&& one_line(t.priority)
    &&& one_line(t.assignee)
    &&& t.ah matches Some(hours) ==> one_line(hours)
    &&& one_line(t.created)
    &&& one_line(t.edited)
    &&& one_line(t.url)
}

/// Lines and what follows them can be told apart again.
proof fn lemma_unlines_injective(
    a: Seq<Seq<char>>,
    b: Seq<Seq<char>>,
    a_rest: Seq<char>,
    b_rest: Seq<char>,
)
    requires
        a.len() == b.len(),
        forall|i: int| 0 <= i < a.len() ==> one_line(#[trigger] a[i]),
        forall|i: int| 0 <= i < b.len() ==> one_line(#[trigger] b[i]),
        unlines(a) + a_rest == unlines(b) + b_rest,
    ensures
        a == b,
        a_rest == b_rest,
    decreases a.len(),
{
    if a.len() == 0 {
        assert(unlines(a) + a_rest == a_rest);
        assert(unlines(b) + b_rest == b_rest);
        assert(a == b);
    } else {
        let whole = unlines(a) + a_rest;
        let a_tail = unlines(a.drop_first()) + a_rest;
        let b_tail = unlines(b.drop_first()) + b_rest;
        assert(whole == a[0].push('\n') + a_tail);
        assert(whole == b[0].push('\n') + b_tail);
        let n = a[0].len() as int;
        let m = b[0].len() as int;
        assert(whole[n] == '\n');
        assert(whole[m] == '\n');
        if n < m {
            assert(b[0][n] == whole[n]);
            assert(b[0].contains('\n'));
        }
        if m < n {
            assert(a[0][m] == whole[m]);
            assert(a[0].contains('\n'));
        }
        assert(a[0] == whole.take(n));
        assert(b[0] == whole.take(n));
        assert(a_tail == whole.skip(n + 1));
        assert(b_tail == whole.skip(n + 1));
        lemma_unlines_injective(a.drop_first(), b.drop_first(), a_rest, b_rest);
        assert(a == seq![a[0]] + a.drop_first());
        assert(b == seq![b[0]] + b.drop_first());
    }
}

proof fn lemma_labelled_line(label: Seq<char>, value: Seq<char>)
    requires
        one_line(label),
        one_line(value),
    ensures
        one_line(label + value),
{
    if (label + value).contains('\n') {
        let i = choose|i: int| 0 <= i < (label + value).len() && (label + value)[i] == '\n';
        if i < label.len() {
            assert(label[i] == '\n');
        } else {
            assert(value[i - label.len()] == '\n');
        }
    }
}

proof fn lemma_label_removed(label: Seq<char>, a: Seq<char>, b: Seq<char>)
    requires
        label + a == label + b,
    ensures
        a == b,
{
    assert(a == (label + a).skip(label.len() as int));
    assert(b == (label + b).skip(label.len() as int));
}

proof fn lemma_front_matter_lines(t: TicketView)
    requires
        plain_fields(t),
    ensures
        forall|i: int|
            0 <= i < front_matter(t).len() ==> one_line(#[trigger] front_matter(t)[i]),
{
    reveal_strlit("---");
    reveal_strlit("ticket: ");
    reveal_strlit("title: ");
    reveal_strlit("status: ");
    reveal_strlit("priority: ");
    reveal_strlit("assignee: ");
    reveal_strlit("ah: ");
    reveal_strlit("ah:");
    reveal_strlit(".0");
    reveal_strlit("created: ");
    reveal_strlit("edited: ");
    reveal_strlit("url: ");
    lemma_labelled_line("ticket: "@, t.ticket_id);
    lemma_labelled_line("title: "@, t.name);
    lemma_labelled_line("status: "@, t.status);
    lemma_labelled_line("priority: "@, t.priority);
    lemma_labelled_line("assignee: "@, t.assignee);
    match t.ah {
        Some(hours) => {
            lemma_labelled_line(hours, ".0"@);
            lemma_labelled_line("ah: "@, hours_text(hours));
        },
        None => {},
    }
    lemma_labelled_line("created: "@, t.created);
    lemma_labelled_line("edited: "@, t.edited);
    lemma_labelled_line("url: "@, t.url);
}

/// A rendered ticket can be read back: two tickets whose front matter fields stay on one line and
/// that render alike agree in every field of the front matter, their hours as rendered, and in
/// their description.
pub proof fn law_render_can_be_read_back(a: TicketView, b: TicketView)
    requires
        plain_fields(a),
        plain_fields(b),
        encode_utf8(ticket_text(a)) == encode_utf8(ticket_text(b)),
    ensures
        a.ticket_id == b.ticket_id,
        a.name == b.name,
        a.status == b.status,
        a.priority == b.priority,
        a.assignee == b.assignee,
        a.ah is Some <==> b.ah is Some,
        a.ah is Some ==> hours_text(a.ah->0) == hours_text(b.ah->0),
        a.ah is Some && (a.ah->0.contains('.') <==> b.ah->0.contains('.')) ==> a.ah == b.ah,
        a.created == b.created,
        a.edited == b.edited,
        a.url == b.url,
        a.description == b.description,
{
    encode_utf8_decode_utf8(ticket_text(a));
    encode_utf8_decode_utf8(ticket_text(b));
    let fa = front_matter(a);
    let fb = front_matter(b);
    lemma_front_matter_lines(a);
    lemma_front_matter_lines(b);
    lemma_unlines_injective(
        fa,
        fb,
        description_text(a.description),
        description_text(b.description),
    );
    assert(fa[1] == fb[1] && fa[2] == fb[2] && fa[3] == fb[3] && fa[4] == fb[4] && fa[5] == fb[5]
        && fa[6] == fb[6] && fa[7] == fb[7] && fa[8] == fb[8] && fa[9] == fb[9]);
    lemma_label_removed("ticket: "@, a.ticket_id, b.ticket_id);
    lemma_label_removed("title: "@, a.name, b.name);
    lemma_label_removed("status: "@, a.status, b.status);
    lemma_label_removed("priority: "@, a.priority, b.priority);
    lemma_label_removed("assignee: "@, a.assignee, b.assignee);
    assert(hours_line(a.ah) == hours_line(b.ah));
    reveal_strlit("ah: ");
    reveal_strlit("ah:");
    assert(a.ah is Some ==> hours_line(a.ah).len() >= 4);
    assert(b.ah is Some ==> hours_line(b.ah).len() >= 4);
    if a.ah is Some {
        lemma_label_removed("ah: "@, hours_text(a.ah->0), hours_text(b.ah->0));
        law_hours_are_shown_whole(a.ah->0);
        law_hours_are_shown_whole(b.ah->0);
        if a.ah->0.contains('.') <==> b.ah->0.contains('.') {
            assert(a.ah->0 == b.ah->0);
        }
    }
    lemma_label_removed("created: "@, a.created, b.created);
    lemma_label_removed("edited: "@, a.edited, b.edited);
    lemma_label_removed("url: "@, a.url, b.url);
    let da = description_text(a.description);
    let db = description_text(b.description);
    if a.description.len() > 0 {
        assert(da.len() == a.description.len() + 2);
        assert(a.description == da.subrange(1, da.len() - 1));
        assert(b.description == db.subrange(1, db.len() - 1));
    } else {
        assert(b.description.len() == 0);
        assert(a.description == b.description);
    }
}

// ---------------------------------------------------------------------------
// Laws of rendering
// ---------------------------------------------------------------------------

/// The hours that are shown are the hours of the ticket, whole: its text, and behind it `.0` where
/// it has no point.
pub proof fn law_hours_are_shown_whole(hours: Seq<char>)
    ensures
        hours_text(hours).len() >= hours.len(),
        hours_text(hours).take(hours.len() as int) == hours,
        hours.contains('.') ==> hours_text(hours).len() == hours.len(),
        !hours.contains('.') ==> hours_text(hours).skip(hours.len() as int) == seq!['.', '0'],
{
    reveal_strlit(".0");
    assert(".0"@ == seq!['.', '0']);
    assert(hours_text(hours).take(hours.len() as int) == hours);
    if !hours.contains('.') {
        assert(hours_text(hours).skip(hours.len() as int) == ".0"@);
    }
}

/// Tickets that differ in their whole number of hours render differently.
pub proof fn law_different_hours_render_differently(a: TicketView, b: TicketView)
    requires
        plain_fields(a),
        plain_fields(b),
        a.ah is Some,
        b.ah is Some,
        !a.ah->0.contains('.'),
        !b.ah->0.contains('.'),
        a.ah != b.ah,
    ensures
        encode_utf8(ticket_text(a)) != encode_utf8(ticket_text(b)),
{
    if encode_utf8(ticket_text(a)) == encode_utf8(ticket_text(b)) {
        law_render_can_be_read_back(a, b);
    }
}

/// The whole text of a ticket, field by field: each field stands unchanged behind its label, on a
/// line of its own between two lines of three hyphens, and the description, where there is one,
/// stands unchanged behind an empty line.
pub proof fn law_ticket_text_holds_every_field(t: TicketView, hours: Seq<char>, body: Seq<char>)
    requires
        match t.ah {
            Some(h) => hours == seq![' '] + h + if h.contains('.') {
                Seq::<char>::empty()
            } else {
                seq!['.', '0']
            },
            None => hours.len() == 0,
        },
        t.description.len() > 0 ==> body == seq!['\n'] + t.description + seq!['\n'],
        t.description.len() == 0 ==> body.len() == 0,
    ensures
        ticket_text(t) == "---\nticket: "@ + t.ticket_id + "\ntitle: "@ + t.name + "\nstatus: "@
            + t.status + "\npriority: "@ + t.priority + "\nassignee: "@ + t.assignee + "\nah:"@
            + hours + "\ncreated: "@ + t.created + "\nedited: "@ + t.edited + "\nurl: "@ + t.url
            + "\n---\n"@ + body,
{
    reveal_strlit("---");
    reveal_strlit("ticket: ");
    reveal_strlit("title: ");
    reveal_strlit("status: ");
    reveal_strlit("priority: ");
    reveal_strlit("assignee: ");
    reveal_strlit("ah: ");
    reveal_strlit("ah:");
    reveal_strlit(".0");
    reveal_strlit("created: ");
    reveal_strlit("edited: ");
    reveal_strlit("url: ");
    reveal_strlit("---\nticket: ");
    reveal_strlit("\ntitle: ");
    reveal_strlit("\nstatus: ");
    reveal_strlit("\npriority: ");
    reveal_strlit("\nassignee: ");
    reveal_strlit("\nah:");
    reveal_strlit("\ncreated: ");
    reveal_strlit("\nedited: ");
    reveal_strlit("\nurl: ");
    reveal_strlit("\n---\n");
    let f = front_matter(t);
    let nl = seq!['\n'];
    let none: Seq<Seq<char>> = Seq::empty();
    assert(f.len() == 11);
    assert(f.take(0) == none);
    assert(unlines(f.take(0)) == Seq::<char>::empty());
    let s1 = "---\nticket: "@ + t.ticket_id;
    lemma_one_more_line(f, 0);
    lemma_one_more_line(f, 1);
    assert(unlines(f.take(2)) == s1 + nl);
    let s2 = s1 + "\ntitle: "@ + t.name;
    lemma_one_more_line(f, 2);
    assert(unlines(f.take(3)) == s2 + nl);
    let s3 = s2 + "\nstatus: "@ + t.status;
    lemma_one_more_line(f, 3);
    assert(unlines(f.take(4)) == s3 + nl);
    let s4 = s3 + "\npriority: "@ + t.priority;
    lemma_one_more_line(f, 4);
    assert(unlines(f.take(5)) == s4 + nl);
    let s5 = s4 + "\nassignee: "@ + t.assignee;
    lemma_one_more_line(f, 5);
    assert(unlines(f.take(6)) == s5 + nl);
    let s6 = s5 + "\nah:"@ + hours;
    assert(f[6] == "ah:"@ + hours) by {
        match t.ah {
            Some(h) => {
                law_hours_are_shown_whole(h);
                assert("ah: "@ == "ah:"@.push(' '));
                assert(f[6] == "ah:"@ + hours);
            },
            None => {
                assert(f[6] == "ah:"@ + hours);
            },
        }
    }
    lemma_one_more_line(f, 6);
    assert(unlines(f.take(7)) == s6 + nl);
    let s7 = s6 + "\ncreated: "@ + t.created;
    lemma_one_more_line(f, 7);
    assert(unlines(f.take(8)) == s7 + nl);
    let s8 = s7 + "\nedited: "@ + t.edited;
    lemma_one_more_line(f, 8);
    assert(unlines(f.take(9)) == s8 + nl);
    let s9 = s8 + "\nurl: "@ + t.url;
    lemma_one_more_line(f, 9);
    assert(unlines(f.take(10)) == s9 + nl);
    lemma_one_more_line(f, 10);
    assert(f.take(11) == f);
    assert(unlines(f) == s9 + "\n---\n"@);
    assert(description_text(t.description) == body);
}

proof fn lemma_one_more_line(lines: Seq<Seq<char>>, i: int)
    requires
        0 <= i < lines.len(),
    ensures
        unlines(lines.take(i + 1)) == unlines(lines.take(i)) + lines[i] + seq!['\n'],
{
    lemma_unlines_push(lines.take(i), lines[i]);
    assert(lines.take(i).push(lines[i]) == lines.take(i + 1));
    assert(unlines(lines.take(i)) + lines[i].push('\n') == unlines(lines.take(i)) + lines[i]
        + seq!['\n']);
}

// ---------------------------------------------------------------------------
// Laws of reading
// ---------------------------------------------------------------------------

/// A title reads as all of the plain text of its first piece, and as nothing where it has none.
pub proof fn law_title_is_the_first_plain_text(props: Option<Json>, key: Seq<char>)
    ensures
        match member_of(member_of(props, key), "title"@) {
            Some(Json::Array(pieces)) => if pieces@.len() > 0 {
                match member_of(Some(pieces@[0]), "plain_text"@) {
                    Some(Json::Text(text)) => title_of(props, key) == text@,
                    _ => title_of(props, key).len() == 0,
                }
            } else {
                title_of(props, key).len() == 0
            },
            _ => title_of(props, key).len() == 0,
        },
{
}

/// A status reads as all of the name under the member that its type names.
pub proof fn law_status_is_the_name_under_its_type(props: Option<Json>, kind: Seq<char>)
    requires
        match member_of(member_of(props, "Status"@), "type"@) {
            Some(Json::Text(text)) => kind == text@,
            _ => kind.len() == 0,
        },
    ensures
        match member_of(member_of(member_of(props, "Status"@), kind), "name"@) {
            Some(Json::Text(name)) => status_of(props) == name@,
            _ => status_of(props).len() == 0,
        },
{
    assert(kind == text_or_empty(member_of(member_of(props, "Status"@), "type"@)));
}

/// A select reads as all of its choice's name.
pub proof fn law_select_is_the_name_of_its_choice(props: Option<Json>, key: Seq<char>)
    ensures
        match member_of(member_of(member_of(props, key), "select"@), "name"@) {
            Some(Json::Text(name)) => select_of(props, key) == name@,
            _ => select_of(props, key).len() == 0,
        },
{
}

/// A list of people reads as all of the first one's name, and as nothing where there is none.
pub proof fn law_people_are_the_first_name(props: Option<Json>, key: Seq<char>)
    ensures
        match member_of(member_of(props, key), "people"@) {
            Some(Json::Array(people)) => if people@.len() > 0 {
                match member_of(Some(people@[0]), "name"@) {
                    Some(Json::Text(name)) => people_of(props, key) == name@,
                    _ => people_of(props, key).len() == 0,
                }
            } else {
                people_of(props, key).len() == 0
            },
            _ => people_of(props, key).len() == 0,
        },
{
}

/// A url, a number, a timestamp and a formula's date read as all of what stands where the API puts
/// it, and as nothing where nothing of the kind stands there.
pub proof fn law_plain_properties_are_read_whole(
    props: Option<Json>,
    key: Seq<char>,
    kind: Seq<char>,
)
    requires
        match member_of(member_of(props, key), "type"@) {
            Some(Json::Text(text)) => kind == text@,
            _ => kind.len() == 0,
        },
    ensures
        match member_of(member_of(props, key), "url"@) {
            Some(Json::Text(url)) => url_of(props, key) == url@,
            _ => url_of(props, key).len() == 0,
        },
        match member_of(member_of(props, key), "number"@) {
            Some(Json::Number(n)) => number_of(props, key) == Some(n.text@),
            _ => number_of(props, key) is None,
        },
        match member_of(member_of(props, key), kind) {
            Some(Json::Text(time)) => timestamp_of(props, key) == time@,
            _ => timestamp_of(props, key).len() == 0,
        },
        match member_of(
            member_of(member_of(member_of(props, key), "formula"@), "date"@),
            "start"@,
        ) {
            Some(Json::Text(start)) => formula_date_of(props, key) == start@,
            _ => formula_date_of(props, key).len() == 0,
        },
{
    assert(kind == text_or_empty(member_of(member_of(props, key), "type"@)));
}

/// Whether a property says that it is a unique identifier.
pub open spec fn says_unique_id(prop: Json) -> bool {
    member_of(Some(prop), "type"@) matches Some(Json::Text(kind)) && kind@ == "unique_id"@
}

/// The identifier of a page is that of the first of its properties that is a unique identifier, and
/// nothing where none is.
pub proof fn law_identifier_is_the_first_one(members: Vec<(String, Json)>, i: int)
    requires
        0 <= i <= members@.len(),
        forall|j: int| 0 <= j < i ==> !says_unique_id((#[trigger] members@[j]).1),
        i < members@.len() ==> says_unique_id(members@[i].1),
    ensures
        i < members@.len() ==> unique_id_of(Some(Json::Object(members))) == unique_id_text(
            members@[i].1,
        ),
        i == members@.len() ==> unique_id_of(Some(Json::Object(members))).len() == 0,
{
    lemma_first_unique_id(members@, i);
}

proof fn lemma_first_unique_id(members: Seq<(String, Json)>, i: int)
    requires
        0 <= i <= members.len(),
        forall|j: int| 0 <= j < i ==> !says_unique_id((#[trigger] members[j]).1),
        i < members.len() ==> says_unique_id(members[i].1),
    ensures
        i < members.len() ==> first_unique_id(members) == unique_id_text(members[i].1),
        i == members.len() ==> first_unique_id(members).len() == 0,
    decreases i,
{
    if i > 0 {
        assert(!says_unique_id(members[0].1));
        let rest = members.drop_first();
        assert forall|j: int| 0 <= j < i - 1 implies !says_unique_id((#[trigger] rest[j]).1) by {
            assert(rest[j] == members[j + 1]);
        }
        lemma_first_unique_id(rest, i - 1);
    }
}

/// What is no object has no identifier.
pub proof fn law_no_properties_no_identifier(props: Option<Json>)
    requires
        !(props matches Some(Json::Object(_))),
    ensures
        unique_id_of(props).len() == 0,
{
}

/// The number of a unique identifier: the whole number without a sign under `number`, and zero
/// where there is no such number.
pub open spec fn has_number(prop: Json, number: nat) -> bool {
    match member_of(member_of(Some(prop), "unique_id"@), "number"@) {
        Some(Json::Number(n)) => match n.unsigned {
            Some(u) => number == u,
            None => number == 0,
        },
        _ => number == 0,
    }
}

/// Whether a unique identifier has a prefix.
pub open spec fn has_prefix(prop: Json, prefix: Seq<char>) -> bool {
    match member_of(member_of(Some(prop), "unique_id"@), "prefix"@) {
        Some(Json::Text(text)) => prefix == text@,
        _ => prefix.len() == 0,
    }
}

/// An identifier is the whole prefix, a hyphen, and a text of digits without leading zeros that
/// spells the whole number.
pub proof fn law_identifier_spells_its_number(prop: Json, prefix: Seq<char>, number: nat)
    requires
        has_prefix(prop, prefix),
        has_number(prop, number),
    ensures
        ({
            let id = unique_id_text(prop);
            let digits = id.skip(prefix.len() as int + 1);
            &&& id.len() > prefix.len() + 1
            &&& id.take(prefix.len() as int) == prefix
            &&& id[prefix.len() as int] == '-'
            &&& forall|i: int| 0 <= i < digits.len() ==> '0' <= #[trigger] digits[i] <= '9'
            &&& digits[0] == '0' ==> digits.len() == 1
            &&& spelled(digits) == number
        }),
{
    let id = unique_id_text(prop);
    reveal_strlit("-");
    law_decimal_spells_its_number(number);
    assert(id == prefix + "-"@ + decimal(number));
    assert(id.take(prefix.len() as int) == prefix);
    assert(id.skip(prefix.len() as int + 1) == decimal(number));
}

/// Identifiers of one prefix differ where their numbers do.
pub proof fn law_different_numbers_have_different_identifiers(
    a: Json,
    b: Json,
    prefix: Seq<char>,
    m: nat,
    n: nat,
)
    requires
        has_prefix(a, prefix),
        has_prefix(b, prefix),
        has_number(a, m),
        has_number(b, n),
        m != n,
    ensures
        unique_id_text(a) != unique_id_text(b),
{
    law_identifier_spells_its_number(a, prefix, m);
    law_identifier_spells_its_number(b, prefix, n);
}

/// A ticket takes each of its fields from its own property, and its address and its page from the
/// page itself; it begins without a description.
pub proof fn law_ticket_fields_come_from_their_properties(page: Json, props: Option<Json>)
    requires
        props == member_of(Some(page), "properties"@),
    ensures
        ({
            let t = ticket_of_page(page);
            &&& t.ticket_id == unique_id_of(props)
            &&& t.name == title_of(props, "Name"@)
            &&& t.status == status_of(props)
            &&& t.priority == select_of(props, "Priority"@)
            &&& t.assignee == people_of(props, "Assignee"@)
            &&& t.ah == number_of(props, "AH"@)
            &&& t.created == timestamp_of(props, "Created time"@)
            &&& t.edited == timestamp_of(props, "Last edited time"@)
            &&& match member_of(Some(page), "url"@) {
                Some(Json::Text(url)) => t.url == url@,
                _ => t.url.len() == 0,
            }
            &&& match member_of(Some(page), "id"@) {
                Some(Json::Text(id)) => t.page_id == id@,
                _ => t.page_id.len() == 0,
            }
            &&& t.description.len() == 0
        }),
{
}

/// A blank ticket has nothing in any field.
pub proof fn law_blank_ticket_is_blank()
    ensures
        blank_ticket().ticket_id.len() == 0,
        blank_ticket().name.len() == 0,
        blank_ticket().status.len() == 0,
        blank_ticket().priority.len() == 0,
        blank_ticket().assignee.len() == 0,
        blank_ticket().ah is None,
        blank_ticket().created.len() == 0,
        blank_ticket().edited.len() == 0,
        blank_ticket().url.len() == 0,
        blank_ticket().page_id.len() == 0,
        blank_ticket().description.len() == 0,
{
}

/// What is said of a ticket is said of the whole text of each of its fields.
pub proof fn law_ticket_view_holds_every_field(t: Ticket)
    ensures
        t@.ticket_id == t.ticket_id@,
        t@.name == t.name@,
        t@.status == t.status@,
        t@.priority == t.priority@,
        t@.assignee == t.assignee@,
        match t.ah {
            Some(hours) => t@.ah == Some(hours@),
            None => t@.ah is None,
        },
        t@.created == t.created@,
        t@.edited == t.edited@,
        t@.url == t.url@,
        t@.page_id == t.page_id@,
        t@.description == t.description@,
        t.deep_view() == t@,
{
}

} // verus!
