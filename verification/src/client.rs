//! The requests to the Notion API, and what is made of its replies page by page. Sending a request
//! and receiving its reply is left to the caller.

use vstd::prelude::*;

use crate::json::{
    as_text, is_true, items, items_of, member, member_of, owned_text, text_of, text_or_empty,
    truth, Json,
};
use crate::text::{same_text, texts_of};

verus! {

/// The base address of the Notion API.
pub const NOTION_API_URL: &'static str = "https://api.notion.com/v1";

/// The version of the Notion API.
pub const NOTION_VERSION: &'static str = "2022-06-28";

/// A client of the Notion API: the token that it presents.
pub struct NotionClient {
    token: String,
}

/// The address at which a database is queried.
pub open spec fn database_url(database_id: Seq<char>) -> Seq<char> {
    NOTION_API_URL@ + "/databases/"@ + database_id + "/query"@
}

/// The address of the first children of a page's block.
pub open spec fn children_url(page_id: Seq<char>) -> Seq<char> {
    NOTION_API_URL@ + "/blocks/"@ + page_id + "/children"@
}

/// The items that a reply lists under `results`.
pub open spec fn result_items(data: Json) -> Seq<Json> {
    match items_of(member_of(Some(data), "results"@)) {
        Some(list) => list,
        None => Seq::empty(),
    }
}

/// Whether a reply says that there is more to come.
pub open spec fn has_more(data: Json) -> bool {
    is_true(member_of(Some(data), "has_more"@))
}

/// The cursor at which a reply says to go on.
pub open spec fn next_cursor(data: Json) -> Option<Seq<char>> {
    text_of(member_of(Some(data), "next_cursor"@))
}

/// Where a paged request stands: the cursor of its next page, and whether the last page is in.
#[verifier::ext_equal]
pub struct Paging {
    pub cursor: Option<Seq<char>>,
    pub done: bool,
}

/// Where a paged request stands after a reply.
pub open spec fn advance(paging: Paging, data: Json) -> Paging {
    if has_more(data) {
        Paging { cursor: next_cursor(data), done: false }
    } else {
        Paging { done: true, ..paging }
    }
}

/// The text behind an optional string.
pub open spec fn cursor_text(cursor: Option<String>) -> Option<Seq<char>> {
    match cursor {
        Some(c) => Some(c@),
        None => None,
    }
}

impl NotionClient {
    /// The token that the client presents.
    pub closed spec fn token_text(self) -> Seq<char> {
        self.token@
    }

    /// A client that presents the given token.
    pub fn new(token: String) -> (client: Self)
        ensures
            client.token_text() == token@,
    {
        NotionClient { token }
    }

    /// The headers that every request carries, as names and values.
    pub fn headers(&self) -> (headers: Vec<(String, String)>)
        ensures
            headers@.len() == 3,
            headers@[0].0@ == "authorization"@,
            headers@[0].1@ == "Bearer "@ + self.token_text(),
            headers@[1].0@ == "Notion-Version"@,
            headers@[1].1@ == NOTION_VERSION@,
            headers@[2].0@ == "content-type"@,
            headers@[2].1@ == "application/json"@,
    {
        let mut bearer = "Bearer ".to_string();
        bearer.push_str(self.token.as_str());
        let mut headers: Vec<(String, String)> = Vec::new();
        headers.push(("authorization".to_string(), bearer));
        headers.push(("Notion-Version".to_string(), NOTION_VERSION.to_string()));
        headers.push(("content-type".to_string(), "application/json".to_string()));
        headers
    }

    /// Begins to query a database for all its pages.
    pub fn query_database(&self, database_id: &str) -> (query: DatabaseQuery)
        ensures
            query.url@ == database_url(database_id@),
            query.results@ == Seq::<Json>::empty(),
            query.paging() == (Paging { cursor: None, done: false }),
    {
        let mut url = NOTION_API_URL.to_string();
        url.push_str("/databases/");
        url.push_str(database_id);
        url.push_str("/query");
        DatabaseQuery { url, results: Vec::new(), start_cursor: None, done: false }
    }

    /// Begins to fetch the text of a page.
    pub fn get_page_blocks(&self, page_id: &str) -> (query: BlocksQuery)
        ensures
            query.url@ == children_url(page_id@),
            query.texts() == Seq::<Seq<char>>::empty(),
            query.paging() == (Paging { cursor: None, done: false }),
    {
        let mut url = NOTION_API_URL.to_string();
        url.push_str("/blocks/");
        url.push_str(page_id);
        url.push_str("/children");
        let query = BlocksQuery { url, blocks: Vec::new(), start_cursor: None, done: false };
        assert(query.texts() == Seq::<Seq<char>>::empty());
        query
    }
}

/// Reads where a reply says to go on.
fn read_cursor(data: &Json) -> (cursor: Option<String>)
    ensures
        cursor_text(cursor) == next_cursor(*data),
{
    match as_text(member(Some(data), "next_cursor")) {
        Some(c) => Some(c.to_string()),
        None => None,
    }
}

/// Takes the items out of a reply.
fn take_results(data: Json) -> (list: Vec<Json>)
    ensures
        list@ == result_items(data),
{
    match data {
        Json::Object(members) => {
            let mut members = members;
            let mut i: usize = 0;
            let ghost all = members@;
            let ghost value = crate::json::first_member(all, "results"@);
            assert(all.skip(0) == all);
            while i < members.len()
                invariant
                    i <= members@.len(),
                    members@ == all,
                    data == Json::Object(members),
                    value == crate::json::first_member(all, "results"@),
                    value == crate::json::first_member(all.skip(i as int), "results"@),
                decreases members@.len() - i,
            {
                assert(all.skip(i as int)[0] == all[i as int]);
                assert(all.skip(i as int).drop_first() == all.skip(i + 1));
                if same_text(members[i].0.as_str(), "results") {
                    let (_, found) = members.swap_remove(i);
                    return match found {
                        Json::Array(list) => list,
                        _ => Vec::new(),
                    };
                }
                i = i + 1;
            }
            Vec::new()
        },
        _ => Vec::new(),
    }
}

// ---------------------------------------------------------------------------
// Querying a database
// ---------------------------------------------------------------------------

/// A query of a database that is under way.
pub struct DatabaseQuery {
    /// The address to post to.
    pub url: String,
    /// The pages that came in so far.
    pub results: Vec<Json>,
    /// The cursor of the next request.
    pub start_cursor: Option<String>,
    /// Whether the last reply is in.
    pub done: bool,
}

impl DatabaseQuery {
    /// Where the query stands.
    pub open spec fn paging(self) -> Paging {
        Paging { cursor: cursor_text(self.start_cursor), done: self.done }
    }

    /// The document to post: empty, or with the cursor at which to go on.
    pub fn body(&self) -> (body: Json)
        ensures
            body is Object,
            match self.start_cursor {
                Some(c) => body->Object_0@.len() == 1 && body->Object_0@[0].0@
                    == "start_cursor"@ && text_of(Some(body->Object_0@[0].1)) == Some(c@),
                None => body->Object_0@.len() == 0,
            },
    {
        let mut members: Vec<(String, Json)> = Vec::new();
        if let Some(cursor) = &self.start_cursor {
            members.push(("start_cursor".to_string(), Json::Text(cursor.clone())));
        }
        Json::Object(members)
    }

    /// Takes in a reply.
    pub fn receive(&mut self, data: Json)
        ensures
            final(self).url == old(self).url,
            final(self).results@ == old(self).results@ + result_items(data),
            final(self).paging() == advance(old(self).paging(), data),
    {
        if truth(member(Some(&data), "has_more")) {
            self.start_cursor = read_cursor(&data);
            self.done = false;
        } else {
            self.done = true;
        }
        let mut list = take_results(data);
        self.results.append(&mut list);
    }
}

// ---------------------------------------------------------------------------
// Fetching the text of a page
// ---------------------------------------------------------------------------

/// The plain texts of some pieces of rich text, one after the other.
pub open spec fn plain_text(pieces: Seq<Json>) -> Seq<char>
    decreases pieces.len(),
{
    if pieces.len() == 0 {
        Seq::empty()
    } else {
        plain_text(pieces.drop_last()) + text_or_empty(
            member_of(Some(pieces.last()), "plain_text"@),
        )
    }
}

/// The pieces of rich text of a block, which are under the member that its type names.
pub open spec fn rich_text(block: Json) -> Option<Seq<Json>> {
    let kind = text_or_empty(member_of(Some(block), "type"@));
    items_of(member_of(member_of(Some(block), kind), "rich_text"@))
}

/// The texts of those blocks that have rich text.
pub open spec fn block_texts(blocks: Seq<Json>) -> Seq<Seq<char>>
    decreases blocks.len(),
{
    if blocks.len() == 0 {
        Seq::empty()
    } else {
        let before = block_texts(blocks.drop_last());
        match rich_text(blocks.last()) {
            Some(pieces) => before.push(plain_text(pieces)),
            None => before,
        }
    }
}

/// Texts joined by an empty line.
pub open spec fn paragraphs(texts: Seq<Seq<char>>) -> Seq<char>
    decreases texts.len(),
{
    if texts.len() == 0 {
        Seq::empty()
    } else if texts.len() == 1 {
        texts[0]
    } else {
        paragraphs(texts.drop_last()) + "\n\n"@ + texts.last()
    }
}

/// A fetch of a page's text that is under way.
pub struct BlocksQuery {
    /// The address of the page's first blocks.
    pub url: String,
    /// The texts of the blocks that came in so far.
    pub blocks: Vec<String>,
    /// The cursor of the next request.
    pub start_cursor: Option<String>,
    /// Whether the last reply is in.
    pub done: bool,
}

impl BlocksQuery {
    /// Where the fetch stands.
    pub open spec fn paging(self) -> Paging {
        Paging { cursor: cursor_text(self.start_cursor), done: self.done }
    }

    /// The texts of the blocks that came in so far.
    pub open spec fn texts(self) -> Seq<Seq<char>> {
        texts_of(self.blocks@)
    }

    /// The address of the next request: that of the first blocks, with the cursor at which to go
    /// on where there is one.
    pub fn next_url(&self) -> (url: String)
        ensures
            url@ == match self.start_cursor {
                Some(c) => self.url@ + "?start_cursor="@ + c@,
                None => self.url@,
            },
    {
        let mut url = self.url.clone();
        if let Some(cursor) = &self.start_cursor {
            url.push_str("?start_cursor=");
            url.push_str(cursor.as_str());
        }
        url
    }

    /// Takes in a reply.
    pub fn receive(&mut self, data: &Json)
        ensures
            final(self).url == old(self).url,
            final(self).texts() == old(self).texts() + block_texts(result_items(*data)),
            final(self).paging() == advance(old(self).paging(), *data),
    {
        let ghost before = self.texts();
        if let Some(list) = items(member(Some(data), "results")) {
            let mut i: usize = 0;
            assert(before + block_texts(list@.take(0)) == before);
            while i < list.len()
                invariant
                    i <= list@.len(),
                    self.texts() == before + block_texts(list@.take(i as int)),
                    self.url == old(self).url,
                    self.paging() == old(self).paging(),
                    result_items(*data) == list@,
                decreases list@.len() - i,
            {
                assert(list@.take(i + 1).drop_last() == list@.take(i as int));
                let block = Some(&list[i]);
                let kind = owned_text(member(block, "type"));
                if let Some(pieces) = items(member(member(block, kind.as_str()), "rich_text")) {
                    let text = read_plain_text(pieces);
                    let ghost so_far = self.texts();
                    self.blocks.push(text);
                    assert(self.texts() == so_far.push(text@));
                }
                i = i + 1;
            }
            assert(list@.take(list@.len() as int) == list@);
        }
        if truth(member(Some(data), "has_more")) {
            self.start_cursor = read_cursor(data);
            self.done = false;
        } else {
            self.done = true;
        }
    }

    /// The text of the page as far as it came in: the texts of its blocks, with empty lines
    /// between them.
    pub fn markdown(&self) -> (text: String)
        ensures
            text@ == paragraphs(self.texts()),
    {
        let mut text = String::new();
        let mut i: usize = 0;
        while i < self.blocks.len()
            invariant
                i <= self.blocks@.len(),
                text@ == paragraphs(self.texts().take(i as int)),
            decreases self.blocks@.len() - i,
        {
            assert(self.texts().take(i + 1).drop_last() == self.texts().take(i as int));
            if i > 0 {
                text.push_str("\n\n");
            }
            text.push_str(self.blocks[i].as_str());
            i = i + 1;
        }
        assert(self.texts().take(self.texts().len() as int) == self.texts());
        text
    }
}

/// Reads the plain texts of some pieces of rich text, one after the other.
fn read_plain_text(pieces: &Vec<Json>) -> (text: String)
    ensures
        text@ == plain_text(pieces@),
{
    let mut text = String::new();
    let mut i: usize = 0;
    while i < pieces.len()
        invariant
            i <= pieces@.len(),
            text@ == plain_text(pieces@.take(i as int)),
        decreases pieces@.len() - i,
    {
        assert(pieces@.take(i + 1).drop_last() == pieces@.take(i as int));
        let piece = owned_text(member(Some(&pieces[i]), "plain_text"));
        text.push_str(piece.as_str());
        i = i + 1;
    }
    assert(pieces@.take(pieces@.len() as int) == pieces@);
    text
}

// ---------------------------------------------------------------------------
// Laws of paging
// ---------------------------------------------------------------------------

/// The items of some replies, one reply after the other.
pub open spec fn listed_items(replies: Seq<Json>) -> Seq<Json>
    decreases replies.len(),
{
    if replies.len() == 0 {
        Seq::empty()
    } else {
        listed_items(replies.drop_last()) + result_items(replies.last())
    }
}

/// Where a paged request stands after some replies.
pub open spec fn advance_all(paging: Paging, replies: Seq<Json>) -> Paging
    decreases replies.len(),
{
    if replies.len() == 0 {
        paging
    } else {
        advance(advance_all(paging, replies.drop_last()), replies.last())
    }
}

/// What a database query has collected after some replies, each taken in by
/// `DatabaseQuery::receive`.
pub open spec fn collected(results: Seq<Json>, replies: Seq<Json>) -> Seq<Json>
    decreases replies.len(),
{
    if replies.len() == 0 {
        results
    } else {
        collected(results, replies.drop_last()) + result_items(replies.last())
    }
}

/// The texts that a fetch has collected after some replies, each taken in by
/// `BlocksQuery::receive`.
pub open spec fn collected_texts(texts: Seq<Seq<char>>, replies: Seq<Json>) -> Seq<Seq<char>>
    decreases replies.len(),
{
    if replies.len() == 0 {
        texts
    } else {
        collected_texts(texts, replies.drop_last()) + block_texts(result_items(replies.last()))
    }
}

/// A query collects the items of every reply, in order and none twice.
pub proof fn law_query_collects_every_page(results: Seq<Json>, replies: Seq<Json>)
    ensures
        collected(results, replies) == results + listed_items(replies),
    decreases replies.len(),
{
    if replies.len() > 0 {
        law_query_collects_every_page(results, replies.drop_last());
        assert(collected(results, replies) == results + listed_items(replies));
    }
}

/// The last reply alone says whether a request goes on, and where.
pub proof fn law_last_reply_decides(paging: Paging, replies: Seq<Json>)
    requires
        replies.len() > 0,
    ensures
        advance_all(paging, replies).done == !has_more(replies.last()),
        has_more(replies.last()) ==> advance_all(paging, replies).cursor == next_cursor(
            replies.last(),
        ),
{
}

/// The texts of two lists of blocks follow each other as the lists do.
pub proof fn lemma_block_texts_concat(a: Seq<Json>, b: Seq<Json>)
    ensures
        block_texts(a + b) == block_texts(a) + block_texts(b),
    decreases b.len(),
{
    if b.len() == 0 {
        assert(a + b == a);
    } else {
        assert((a + b).drop_last() == a + b.drop_last());
        lemma_block_texts_concat(a, b.drop_last());
    }
}

/// The text of a page does not depend on how the service splits its blocks into replies.
pub proof fn law_text_is_independent_of_paging(texts: Seq<Seq<char>>, replies: Seq<Json>)
    ensures
        collected_texts(texts, replies) == texts + block_texts(listed_items(replies)),
    decreases replies.len(),
{
    if replies.len() > 0 {
        law_text_is_independent_of_paging(texts, replies.drop_last());
        lemma_block_texts_concat(
            listed_items(replies.drop_last()),
            result_items(replies.last()),
        );
        assert(collected_texts(texts, replies) == texts + block_texts(listed_items(replies)));
    } else {
        assert(texts + block_texts(listed_items(replies)) == texts);
    }
}

// ---------------------------------------------------------------------------
// Laws of texts and requests
// ---------------------------------------------------------------------------

/// The text of some pieces is that of the first ones, followed by that of the others.
pub proof fn law_text_follows_the_pieces(a: Seq<Json>, b: Seq<Json>)
    ensures
        plain_text(a + b) == plain_text(a) + plain_text(b),
    decreases b.len(),
{
    if b.len() == 0 {
        assert(a + b == a);
        assert(plain_text(a) + plain_text(b) == plain_text(a));
    } else {
        assert((a + b).drop_last() == a + b.drop_last());
        law_text_follows_the_pieces(a, b.drop_last());
        assert(plain_text(a + b) == plain_text(a) + plain_text(b));
    }
}

/// The text of one piece is all of its plain text, and nothing where it has none.
pub proof fn law_text_of_one_piece(piece: Json)
    ensures
        member_of(Some(piece), "plain_text"@) matches Some(Json::Text(text)) ==> plain_text(
            seq![piece],
        ) == text@,
        !(member_of(Some(piece), "plain_text"@) matches Some(Json::Text(_))) ==> plain_text(
            seq![piece],
        ).len() == 0,
        plain_text(Seq::empty()).len() == 0,
{
    let one = seq![piece];
    assert(one.drop_last() == Seq::<Json>::empty());
    assert(plain_text(one.drop_last()) == Seq::<char>::empty());
    assert(plain_text(one) == text_or_empty(member_of(Some(piece), "plain_text"@)));
}

/// A block that has rich text under the member that its type names gives one text, that of all its
/// pieces; any other block gives none.
pub proof fn law_text_of_one_block(block: Json, kind: Seq<char>)
    requires
        match member_of(Some(block), "type"@) {
            Some(Json::Text(text)) => kind == text@,
            _ => kind.len() == 0,
        },
    ensures
        member_of(member_of(Some(block), kind), "rich_text"@) matches Some(Json::Array(pieces))
            ==> block_texts(seq![block]) == seq![plain_text(pieces@)],
        !(member_of(member_of(Some(block), kind), "rich_text"@) matches Some(Json::Array(_)))
            ==> block_texts(seq![block]).len() == 0,
{
    let one = seq![block];
    let none: Seq<Seq<char>> = Seq::empty();
    assert(one.drop_last() == Seq::<Json>::empty());
    assert(block_texts(one.drop_last()) == none);
    assert(kind == text_or_empty(member_of(Some(block), "type"@)));
    if let Some(pieces) = rich_text(block) {
        assert(none.push(plain_text(pieces)) == seq![plain_text(pieces)]);
    }
}

/// Two runs of blocks are joined by one empty line, and one block is its own text.
pub proof fn law_blocks_are_joined_by_an_empty_line(a: Seq<Seq<char>>, b: Seq<Seq<char>>)
    ensures
        a.len() > 0 && b.len() > 0 ==> paragraphs(a + b) == paragraphs(a) + seq!['\n', '\n']
            + paragraphs(b),
        a.len() == 1 ==> paragraphs(a) == a[0],
        a.len() == 0 ==> paragraphs(a).len() == 0,
    decreases b.len(),
{
    reveal_strlit("\n\n");
    assert("\n\n"@ == seq!['\n', '\n']);
    if a.len() > 0 && b.len() > 0 {
        assert((a + b).drop_last() == a + b.drop_last());
        if b.len() == 1 {
            assert((a + b).drop_last() == a);
            assert(b.last() == b[0]);
        } else {
            law_blocks_are_joined_by_an_empty_line(a, b.drop_last());
        }
        assert(paragraphs(a + b) == paragraphs(a) + seq!['\n', '\n'] + paragraphs(b));
    }
}

/// A reply lists what stands in its array `results`, all of it, and nothing where it has none.
pub proof fn law_reply_lists_its_results(data: Json)
    ensures
        member_of(Some(data), "results"@) matches Some(Json::Array(list)) ==> result_items(data)
            == list@,
        !(member_of(Some(data), "results"@) matches Some(Json::Array(_))) ==> result_items(
            data,
        ).len() == 0,
{
}

/// A request goes on exactly where its reply says that there is more, and from the cursor that the
/// reply gives; otherwise it is done.
pub proof fn law_reply_says_where_to_go_on(paging: Paging, data: Json)
    ensures
        ({
            let after = advance(paging, data);
            match member_of(Some(data), "has_more"@) {
                Some(Json::Bool(true)) => !after.done && match member_of(
                    Some(data),
                    "next_cursor"@,
                ) {
                    Some(Json::Text(cursor)) => after.cursor == Some(cursor@),
                    _ => after.cursor is None,
                },
                _ => after.done && after.cursor == paging.cursor,
            }
        }),
{
}

/// The addresses of the requests hold the whole identifier that they are for, between fixed texts,
/// so different databases and different pages have different addresses.
pub proof fn law_addresses_hold_their_identifier(id: Seq<char>, other: Seq<char>)
    ensures
        database_url(id) == "https://api.notion.com/v1/databases/"@ + id + "/query"@,
        children_url(id) == "https://api.notion.com/v1/blocks/"@ + id + "/children"@,
        id != other ==> database_url(id) != database_url(other),
        id != other ==> children_url(id) != children_url(other),
{
    reveal_strlit("https://api.notion.com/v1");
    reveal_strlit("/databases/");
    reveal_strlit("/query");
    reveal_strlit("/blocks/");
    reveal_strlit("/children");
    reveal_strlit("https://api.notion.com/v1/databases/");
    reveal_strlit("https://api.notion.com/v1/blocks/");
    assert(NOTION_API_URL@ + "/databases/"@ == "https://api.notion.com/v1/databases/"@);
    assert(NOTION_API_URL@ + "/blocks/"@ == "https://api.notion.com/v1/blocks/"@);
    let d = "https://api.notion.com/v1/databases/"@.len() as int;
    let b = "https://api.notion.com/v1/blocks/"@.len() as int;
    assert(database_url(id).subrange(d, database_url(id).len() - 6) == id);
    assert(database_url(other).subrange(d, database_url(other).len() - 6) == other);
    assert(children_url(id).subrange(b, children_url(id).len() - 9) == id);
    assert(children_url(other).subrange(b, children_url(other).len() - 9) == other);
}

/// The text behind an optional cursor is that of the cursor.
pub proof fn law_cursor_text_is_that_of_the_cursor(cursor: String)
    ensures
        cursor_text(Some(cursor)) == Some(cursor@),
        cursor_text(None) is None,
{
}

/// A query holds the texts of all its blocks, one for one, and stands where its fields say.
pub proof fn law_queries_hold_what_came_in(blocks: BlocksQuery, pages: DatabaseQuery, i: int)
    ensures
        blocks.texts().len() == blocks.blocks@.len(),
        0 <= i < blocks.blocks@.len() ==> blocks.texts()[i] == blocks.blocks@[i]@,
        blocks.paging().done == blocks.done,
        pages.paging().done == pages.done,
        match blocks.start_cursor {
            Some(cursor) => blocks.paging().cursor == Some(cursor@),
            None => blocks.paging().cursor is None,
        },
        match pages.start_cursor {
            Some(cursor) => pages.paging().cursor == Some(cursor@),
            None => pages.paging().cursor is None,
        },
{
}

} // verus!
