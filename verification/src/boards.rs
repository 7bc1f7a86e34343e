//! Summaries and boards, as clients see them.
use vstd::prelude::*;

use crate::board::{empty_board, empty_board_value};
use crate::error::{AppError, AppErrorView};
use crate::events::{int_json, no_members};
use crate::json::{
    integer_json, json_number, opt_json, parsed_json, read_json, string_json, Json, JsonView,
};
use crate::meetings::answered;
use crate::rebuild::version_of;
use crate::rows::{
    any, first, is_first, json_of_rows, law_sorted_by, lemma_first_holds, lemma_first_is,
    select_rows, sort_rows, sorted_by,
};
use crate::store::{
    meeting_is, Board, BoardVersion, BoardVersionView, BoardView, Store, StoreView, Summary,
    SummaryRowView,
};
use crate::text::text_eq;
use crate::windows::board_of;

verus! {

/// What a client sees of a stored document: what it says, or an empty object
/// where it cannot be read.
pub open spec fn shown(content: Option<JsonView>) -> JsonView {
    match content {
        Some(v) => v,
        None => JsonView::Object(no_members()),
    }
}

fn show(content: Option<Json>) -> (json: Json)
    ensures
        json@ == shown(opt_json(content)),
{
    match content {
        Some(json) => json,
        None => {
            let json = Json::Object(Vec::new());
            assert(json@->Object_0 =~= no_members());
            json
        },
    }
}

/// A summary with this content, as a client sees it.
pub open spec fn summary_shown(r: SummaryRowView, content: Option<JsonView>) -> JsonView {
    JsonView::Object(
        no_members().insert("id"@, JsonView::Str(r.id)).insert(
            "window_start_ms"@,
            int_json(r.window_start_ms),
        ).insert("window_end_ms"@, int_json(r.window_end_ms)).insert("content"@, shown(content)).insert(
            "created_at"@,
            JsonView::Str(r.created_at),
        ),
    )
}

/// A summary with this content, as a client sees it.
pub fn show_summary(r: &Summary, content: Option<Json>) -> (json: Json)
    ensures
        json@ == summary_shown(r@, opt_json(content)),
{
    let mut json = Json::Null;
    json.set("id", string_json(r.id.as_str()));
    json.set("window_start_ms", integer_json(r.window_start_ms));
    json.set("window_end_ms", integer_json(r.window_end_ms));
    json.set("content", show(content));
    json.set("created_at", string_json(r.created_at.as_str()));
    json
}

/// A board with this content, as a client sees it.
pub open spec fn board_shown(b: BoardView, content: Option<JsonView>) -> JsonView {
    JsonView::Object(
        no_members().insert("version"@, int_json(b.version)).insert("content"@, shown(content)).insert(
            "updated_at"@,
            JsonView::Str(b.updated_at),
        ),
    )
}

/// A board with this content, as a client sees it.
pub fn show_board(b: &Board, content: Option<Json>) -> (json: Json)
    ensures
        json@ == board_shown(b@, opt_json(content)),
{
    let mut json = Json::Null;
    json.set("version", integer_json(b.version));
    json.set("content", show(content));
    json.set("updated_at", string_json(b.updated_at.as_str()));
    json
}

/// The board of a meeting without summaries, as a client sees it.
pub open spec fn no_board_shown() -> JsonView {
    JsonView::Object(
        no_members().insert("version"@, int_json(0)).insert("content"@, empty_board_value()),
    )
}

/// A version of a board with this content, as a client sees it.
pub open spec fn version_shown(v: BoardVersionView, content: Option<JsonView>) -> JsonView {
    JsonView::Object(
        no_members().insert("version"@, int_json(v.version)).insert(
            "source_summary_id"@,
            JsonView::Str(v.source_summary_id),
        ).insert("content"@, shown(content)).insert("created_at"@, JsonView::Str(v.created_at)),
    )
}

/// A version of a board with this content, as a client sees it.
pub fn show_version(v: &BoardVersion, content: Option<Json>) -> (json: Json)
    ensures
        json@ == version_shown(v@, opt_json(content)),
{
    let mut json = Json::Null;
    json.set("version", integer_json(v.version));
    json.set("source_summary_id", string_json(v.source_summary_id.as_str()));
    json.set("content", show(content));
    json.set("created_at", string_json(v.created_at.as_str()));
    json
}

/// A summary of a meeting.
pub open spec fn summary_of(meeting_id: Seq<char>) -> spec_fn(SummaryRowView) -> bool {
    |r: SummaryRowView| r.meeting_id == meeting_id
}

/// Where the window of a summary ends.
pub open spec fn summary_end() -> spec_fn(SummaryRowView) -> i64 {
    |r: SummaryRowView| r.window_end_ms
}

/// The number of a version.
pub open spec fn version_number() -> spec_fn(BoardVersionView) -> i64 {
    |v: BoardVersionView| v.version
}

/// A summary, as a client sees it.
pub open spec fn summary_entry() -> spec_fn(SummaryRowView) -> JsonView {
    |r: SummaryRowView| summary_shown(r, parsed_json(r.content_json))
}

/// A version of a board, as a client sees it.
pub open spec fn version_entry() -> spec_fn(BoardVersionView) -> JsonView {
    |v: BoardVersionView| version_shown(v, parsed_json(v.content_json))
}

/// The summaries of a meeting by the end of their windows, as a client sees them.
pub open spec fn summaries_listed(s: StoreView, meeting_id: Seq<char>) -> Result<
    JsonView,
    AppErrorView,
> {
    if s.has_meeting(meeting_id) {
        Ok(
            JsonView::Array(
                sorted_by(s.summaries.filter(summary_of(meeting_id)), summary_end()).map_values(
                    summary_entry(),
                ),
            ),
        )
    } else {
        Err(AppErrorView::NotFound)
    }
}

/// The board of a meeting, as a client sees it.
pub open spec fn current_board(s: StoreView, meeting_id: Seq<char>) -> Result<
    JsonView,
    AppErrorView,
> {
    if s.has_meeting(meeting_id) {
        Ok(
            match first(s.boards, board_of(meeting_id)) {
                Some(b) => board_shown(b, parsed_json(b.content_json)),
                None => no_board_shown(),
            },
        )
    } else {
        Err(AppErrorView::NotFound)
    }
}

/// The versions of a meeting's board by their numbers, as a client sees them.
pub open spec fn versions_listed(s: StoreView, meeting_id: Seq<char>) -> Result<
    JsonView,
    AppErrorView,
> {
    if s.has_meeting(meeting_id) {
        Ok(
            JsonView::Array(
                sorted_by(
                    s.board_versions.filter(version_of(meeting_id)),
                    version_number(),
                ).map_values(version_entry()),
            ),
        )
    } else {
        Err(AppErrorView::NotFound)
    }
}

impl Store {
    /// Lists the summaries of a meeting by the end of their windows.
    pub fn list_summaries(&self, meeting_id: &str) -> (answer: Result<Json, AppError>)
        ensures
            answered(answer) == summaries_listed(self@, meeting_id@),
    {
        if !self.has_meeting(meeting_id) {
            return Err(AppError::NotFound);
        }
        let found = select_rows(
            &self.summaries,
            |r: &Summary| -> (b: bool)
                ensures b == summary_of(meeting_id@)(r@)
                { text_eq(r.meeting_id.as_str(), meeting_id) },
            Ghost(summary_of(meeting_id@)),
        );
        let sorted = sort_rows(
            found,
            |r: &&Summary| -> (k: i64)
                ensures k == summary_end()(r@)
                { r.window_end_ms },
            Ghost(summary_end()),
        );
        Ok(
            json_of_rows(
                &sorted,
                |r: &&Summary| -> (out: Json)
                    ensures out@ == summary_entry()(r@)
                    { show_summary(r, read_json(r.content_json.as_str())) },
                Ghost(summary_entry()),
            ),
        )
    }

    /// Shows the board of a meeting.
    pub fn get_board(&self, meeting_id: &str) -> (answer: Result<Json, AppError>)
        ensures
            answered(answer) == current_board(self@, meeting_id@),
    {
        if !self.has_meeting(meeting_id) {
            return Err(AppError::NotFound);
        }
        match self.board_row(meeting_id) {
            Some(b) => Ok(show_board(b, read_json(b.content_json.as_str()))),
            None => {
                let mut json = Json::Null;
                json.set("version", integer_json(0));
                json.set("content", empty_board());
                Ok(json)
            },
        }
    }

    /// Lists the versions of a meeting's board by their numbers.
    pub fn list_board_versions(&self, meeting_id: &str) -> (answer: Result<Json, AppError>)
        ensures
            answered(answer) == versions_listed(self@, meeting_id@),
    {
        if !self.has_meeting(meeting_id) {
            return Err(AppError::NotFound);
        }
        let found = select_rows(
            &self.board_versions,
            |v: &BoardVersion| -> (b: bool)
                ensures b == version_of(meeting_id@)(v@)
                { text_eq(v.meeting_id.as_str(), meeting_id) },
            Ghost(version_of(meeting_id@)),
        );
        let sorted = sort_rows(
            found,
            |v: &&BoardVersion| -> (k: i64)
                ensures k == version_number()(v@)
                { v.version },
            Ghost(version_number()),
        );
        Ok(
            json_of_rows(
                &sorted,
                |v: &&BoardVersion| -> (out: Json)
                    ensures out@ == version_entry()(v@)
                    { show_version(v, read_json(v.content_json.as_str())) },
                Ghost(version_entry()),
            ),
        )
    }
}

proof fn lemma_shown_names()
    ensures
        "id"@.len() == 2,
        "window_start_ms"@.len() == 15,
        "window_end_ms"@.len() == 13,
        "content"@.len() == 7,
        "created_at"@.len() == 10,
        "version"@.len() == 7,
        "updated_at"@.len() == 10,
        "source_summary_id"@.len() == 17,
        "content"@ != "version"@,
{
    reveal_strlit("id");
    reveal_strlit("window_start_ms");
    reveal_strlit("window_end_ms");
    reveal_strlit("content");
    reveal_strlit("created_at");
    reveal_strlit("version");
    reveal_strlit("updated_at");
    reveal_strlit("source_summary_id");
    assert("content"@[0] == 'c' && "version"@[0] == 'v');
}

/// Whether a value shows a stored document: what it says, or an empty object where it
/// cannot be read.
pub open spec fn shows_document(v: JsonView, content: Option<JsonView>) -> bool {
    match content {
        Some(document) => v == document,
        None => v is Object && v->Object_0.dom() == Set::<Seq<char>>::empty(),
    }
}

/// A client sees of a summary its id, its window, its content and when it was made; of a
/// board its version, its content and since when; of a version of a board its number, the
/// summary that it came from, its content and when it was made; each the row's own, and
/// nothing else. A meeting without a board has version zero and an empty board.
pub proof fn law_stored_documents_are_shown_as_they_are(
    r: SummaryRowView,
    b: BoardView,
    v: BoardVersionView,
    content: Option<JsonView>,
)
    ensures
        ({
            let o = summary_shown(r, content)->Object_0;
            &&& summary_shown(r, content) is Object
            &&& o.dom() == set![
                "id"@,
                "window_start_ms"@,
                "window_end_ms"@,
                "content"@,
                "created_at"@,
            ]
            &&& o["id"@] == JsonView::Str(r.id)
            &&& o["window_start_ms"@] == JsonView::Number(json_number(r.window_start_ms))
            &&& o["window_end_ms"@] == JsonView::Number(json_number(r.window_end_ms))
            &&& shows_document(o["content"@], content)
            &&& o["created_at"@] == JsonView::Str(r.created_at)
        }),
        ({
            let o = board_shown(b, content)->Object_0;
            &&& board_shown(b, content) is Object
            &&& o.dom() == set!["version"@, "content"@, "updated_at"@]
            &&& o["version"@] == JsonView::Number(json_number(b.version))
            &&& shows_document(o["content"@], content)
            &&& o["updated_at"@] == JsonView::Str(b.updated_at)
        }),
        ({
            let o = version_shown(v, content)->Object_0;
            &&& version_shown(v, content) is Object
            &&& o.dom() == set!["version"@, "source_summary_id"@, "content"@, "created_at"@]
            &&& o["version"@] == JsonView::Number(json_number(v.version))
            &&& o["source_summary_id"@] == JsonView::Str(v.source_summary_id)
            &&& shows_document(o["content"@], content)
            &&& o["created_at"@] == JsonView::Str(v.created_at)
        }),
        ({
            let o = no_board_shown()->Object_0;
            &&& no_board_shown() is Object
            &&& o.dom() == set!["version"@, "content"@]
            &&& o["version"@] == JsonView::Number(json_number(0))
            &&& o["content"@] == empty_board_value()
        }),
{
    lemma_shown_names();
    assert(no_members().dom() =~= Set::<Seq<char>>::empty());
    assert(summary_shown(r, content)->Object_0.dom() =~= set![
        "id"@,
        "window_start_ms"@,
        "window_end_ms"@,
        "content"@,
        "created_at"@,
    ]);
    assert(board_shown(b, content)->Object_0.dom() =~= set![
        "version"@,
        "content"@,
        "updated_at"@,
    ]);
    assert(version_shown(v, content)->Object_0.dom() =~= set![
        "version"@,
        "source_summary_id"@,
        "content"@,
        "created_at"@,
    ]);
    assert(no_board_shown()->Object_0.dom() =~= set!["version"@, "content"@]);
}

/// The list of a meeting's summaries has every summary of the meeting and no other, each
/// once and with what its text says, in the order in which their windows end. The
/// summaries in that order are returned.
pub proof fn law_summaries_are_listed(s: StoreView, meeting_id: Seq<char>, at: int) -> (order: Seq<
    SummaryRowView,
>)
    requires
        0 <= at < s.meetings.len(),
        s.meetings[at].id == meeting_id,
    ensures
        order.to_multiset() == s.summaries.filter(
            |r: SummaryRowView| r.meeting_id == meeting_id,
        ).to_multiset(),
        forall|i: int, j: int|
            0 <= i < j < order.len() ==> (#[trigger] order[i]).window_end_ms <= (
            #[trigger] order[j]).window_end_ms,
        summaries_listed(s, meeting_id) matches Ok(v) && v is Array && v->Array_0.len()
            == order.len() && forall|i: int|
            0 <= i < order.len() ==> #[trigger] v->Array_0[i] == summary_shown(
                order[i],
                parsed_json(order[i].content_json),
            ),
{
    assert(meeting_is(meeting_id)(s.meetings[at]));
    let p = |r: SummaryRowView| r.meeting_id == meeting_id;
    assert(p =~= summary_of(meeting_id));
    let kept = s.summaries.filter(p);
    let order = sorted_by(kept, summary_end());
    law_sorted_by(kept, summary_end());
    assert forall|i: int, j: int| 0 <= i < j < order.len() implies (
    #[trigger] order[i]).window_end_ms <= (#[trigger] order[j]).window_end_ms by {
        assert(summary_end()(order[i]) <= summary_end()(order[j]));
    }
    order
}

/// The list of the versions of a meeting's board has every version and no other, each once
/// and with what its text says, in the order of their numbers. The versions in that order
/// are returned.
pub proof fn law_versions_are_listed(s: StoreView, meeting_id: Seq<char>, at: int) -> (order: Seq<
    BoardVersionView,
>)
    requires
        0 <= at < s.meetings.len(),
        s.meetings[at].id == meeting_id,
    ensures
        order.to_multiset() == s.board_versions.filter(
            |v: BoardVersionView| v.meeting_id == meeting_id,
        ).to_multiset(),
        forall|i: int, j: int|
            0 <= i < j < order.len() ==> (#[trigger] order[i]).version <= (
            #[trigger] order[j]).version,
        versions_listed(s, meeting_id) matches Ok(v) && v is Array && v->Array_0.len()
            == order.len() && forall|i: int|
            0 <= i < order.len() ==> #[trigger] v->Array_0[i] == version_shown(
                order[i],
                parsed_json(order[i].content_json),
            ),
{
    assert(meeting_is(meeting_id)(s.meetings[at]));
    let p = |v: BoardVersionView| v.meeting_id == meeting_id;
    assert(p =~= version_of(meeting_id));
    let kept = s.board_versions.filter(p);
    let order = sorted_by(kept, version_number());
    law_sorted_by(kept, version_number());
    assert forall|i: int, j: int| 0 <= i < j < order.len() implies (#[trigger] order[i]).version
        <= (#[trigger] order[j]).version by {
        assert(version_number()(order[i]) <= version_number()(order[j]));
    }
    order
}

/// Who asks for the board of a meeting is shown the board of that meeting, with what its
/// text says; where the meeting has none, an empty one.
pub proof fn law_asked_for_board_is_shown(
    s: StoreView,
    meeting_id: Seq<char>,
    at: int,
    board_at: int,
)
    requires
        0 <= at < s.meetings.len(),
        s.meetings[at].id == meeting_id,
        0 <= board_at <= s.boards.len(),
        forall|i: int| 0 <= i < board_at ==> (#[trigger] s.boards[i]).meeting_id != meeting_id,
        board_at < s.boards.len() ==> s.boards[board_at].meeting_id == meeting_id,
    ensures
        board_at < s.boards.len() ==> current_board(s, meeting_id) == Ok::<
            JsonView,
            AppErrorView,
        >(board_shown(s.boards[board_at], parsed_json(s.boards[board_at].content_json))),
        board_at == s.boards.len() ==> current_board(s, meeting_id) == Ok::<
            JsonView,
            AppErrorView,
        >(no_board_shown()),
{
    assert(meeting_is(meeting_id)(s.meetings[at]));
    let p = board_of(meeting_id);
    lemma_first_holds(s.boards, p);
    if board_at < s.boards.len() {
        assert(is_first(s.boards, p, board_at));
        lemma_first_is(s.boards, p, board_at);
        assert(any(s.boards, p));
    }
}

/// Of a meeting that is not there, nothing is listed or shown.
pub proof fn law_nothing_is_shown_of_no_meeting(s: StoreView, meeting_id: Seq<char>)
    requires
        forall|i: int| 0 <= i < s.meetings.len() ==> (#[trigger] s.meetings[i]).id != meeting_id,
    ensures
        summaries_listed(s, meeting_id) == Err::<JsonView, AppErrorView>(AppErrorView::NotFound),
        versions_listed(s, meeting_id) == Err::<JsonView, AppErrorView>(AppErrorView::NotFound),
        current_board(s, meeting_id) == Err::<JsonView, AppErrorView>(AppErrorView::NotFound),
        crate::segments::segments_listed(s, meeting_id) == Err::<JsonView, AppErrorView>(
            AppErrorView::NotFound,
        ),
        crate::speakers::speakers_listed(s, meeting_id) == Err::<JsonView, AppErrorView>(
            AppErrorView::NotFound,
        ),
{
}

} // verus!
