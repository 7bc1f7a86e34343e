//! The meeting board: what all summaries of a meeting add up to.
use vstd::prelude::*;

use crate::json::{
    array_member, as_text, items_model, lemma_key_is_free, member, opt_str_json, opt_string_json,
    plain, reserved_key, string_json, with_member, Json, JsonView,
};
use crate::summary::{
    actions, places_rise, ActionItem, ActionItemView, SummaryDocument, SummaryView,
};
use crate::text::{text_eq, texts};

verus! {

/// Whether an array holds a text.
pub open spec fn holds_text(items: Seq<JsonView>, t: Seq<char>) -> bool {
    exists|i: int| 0 <= i < items.len() && as_text(#[trigger] items[i]) == Some(t)
}

/// An array with those texts added, in order, that it does not hold yet.
pub open spec fn merged_texts(items: Seq<JsonView>, values: Seq<Seq<char>>) -> Seq<JsonView>
    decreases values.len(),
{
    if values.len() == 0 {
        items
    } else {
        let before = merged_texts(items, values.drop_last());
        if holds_text(before, values.last()) {
            before
        } else {
            before.push(JsonView::Str(values.last()))
        }
    }
}

/// What an action item on the board says is to be done.
pub open spec fn content_of(item: JsonView) -> Option<Seq<char>> {
    match member(item, "content"@) {
        Some(v) => as_text(v),
        None => None,
    }
}

/// Whether an array holds an action item with a content.
pub open spec fn holds_content(items: Seq<JsonView>, t: Seq<char>) -> bool {
    exists|i: int| 0 <= i < items.len() && content_of(#[trigger] items[i]) == Some(t)
}

/// An action item as a value.
pub open spec fn action_value(item: ActionItemView) -> JsonView {
    JsonView::Object(
        Map::<Seq<char>, JsonView>::empty().insert("content"@, JsonView::Str(item.content)).insert(
            "owner"@,
            opt_str_json(item.owner),
        ).insert("due_date"@, opt_str_json(item.due_date)).insert(
            "status"@,
            JsonView::Str(item.status),
        ),
    )
}

/// An array with those action items added, in order, whose content it does not hold yet.
pub open spec fn merged_actions(items: Seq<JsonView>, added: Seq<ActionItemView>) -> Seq<JsonView>
    decreases added.len(),
{
    if added.len() == 0 {
        items
    } else {
        let before = merged_actions(items, added.drop_last());
        if holds_content(before, added.last().content) {
            before
        } else {
            before.push(action_value(added.last()))
        }
    }
}

/// A board with the texts added to one of its lists; the list starts out empty
/// where the board has none.
pub open spec fn with_texts(board: JsonView, field: Seq<char>, values: Seq<Seq<char>>) -> JsonView {
    with_member(board, field, JsonView::Array(merged_texts(array_member(board, field), values)))
}

/// A board with the action items added.
pub open spec fn with_actions(board: JsonView, added: Seq<ActionItemView>) -> JsonView {
    with_member(
        board,
        "action_items"@,
        JsonView::Array(merged_actions(array_member(board, "action_items"@), added)),
    )
}

/// A board with a summary added.
pub open spec fn merged_board(board: JsonView, summary: SummaryView) -> JsonView {
    let board = with_texts(board, "topics"@, summary.topics);
    let board = with_texts(board, "decisions"@, summary.decisions);
    let board = with_texts(board, "open_questions"@, summary.open_questions);
    let board = with_texts(board, "risks"@, summary.risks);
    let board = with_texts(board, "key_points"@, summary.key_points);
    with_actions(board, summary.action_items)
}

/// Whether a summary can be added to a board: it is an object, or null.
pub open spec fn is_mergeable(board: JsonView) -> bool {
    board is Object || board is Null
}

/// The board of a meeting without summaries.
pub open spec fn empty_board_value() -> JsonView {
    let none = JsonView::Array(Seq::empty());
    JsonView::Object(
        Map::<Seq<char>, JsonView>::empty().insert("topics"@, none).insert("decisions"@, none).insert(
            "action_items"@,
            none,
        ).insert("open_questions"@, none).insert("risks"@, none).insert("key_points"@, none),
    )
}

fn empty_array() -> (json: Json)
    ensures
        json@ == JsonView::Array(Seq::empty()),
{
    let json = Json::Array(Vec::new());
    assert(json@->Array_0 =~= Seq::empty());
    json
}

/// The board of a meeting without summaries.
pub fn empty_board() -> (board: Json)
    ensures
        board@ == empty_board_value(),
{
    let mut board = Json::Null;
    board.set("topics", empty_array());
    board.set("decisions", empty_array());
    board.set("action_items", empty_array());
    board.set("open_questions", empty_array());
    board.set("risks", empty_array());
    board.set("key_points", empty_array());
    board
}

/// Whether a summary can be added to the board.
pub fn can_merge(board: &Json) -> (b: bool)
    ensures
        b == is_mergeable(board@),
{
    match board {
        Json::Object(_) => true,
        Json::Null => true,
        _ => false,
    }
}

fn array_holds_text(items: &Vec<Json>, t: &str) -> (held: bool)
    ensures
        held == holds_text(items_model(items@), t@),
{
    let ghost all = items_model(items@);
    let mut i: usize = 0;
    while i < items.len()
        invariant
            i <= items@.len(),
            all == items_model(items@),
            forall|j: int| 0 <= j < i ==> as_text(#[trigger] all[j]) != Some(t@),
        decreases items@.len() - i,
    {
        assert(all[i as int] == items@[i as int]@);
        if let Some(text) = items[i].as_str() {
            if text_eq(text, t) {
                return true;
            }
        }
        i += 1;
    }
    false
}

fn content_is(item: &Json, t: &str) -> (same: bool)
    ensures
        same == (content_of(item@) == Some(t@)),
{
    match item.get("content") {
        Some(content) => match content.as_str() {
            Some(text) => text_eq(text, t),
            None => false,
        },
        None => false,
    }
}

fn array_holds_content(items: &Vec<Json>, t: &str) -> (held: bool)
    ensures
        held == holds_content(items_model(items@), t@),
{
    let ghost all = items_model(items@);
    let mut i: usize = 0;
    while i < items.len()
        invariant
            i <= items@.len(),
            all == items_model(items@),
            forall|j: int| 0 <= j < i ==> content_of(#[trigger] all[j]) != Some(t@),
        decreases items@.len() - i,
    {
        assert(all[i as int] == items@[i as int]@);
        if content_is(&items[i], t) {
            return true;
        }
        i += 1;
    }
    false
}

/// An action item as a value.
pub fn action_json(item: &ActionItem) -> (json: Json)
    ensures
        json@ == action_value(item@),
{
    let mut json = Json::Null;
    json.set("content", string_json(item.content.as_str()));
    json.set("owner", opt_string_json(&item.owner));
    json.set("due_date", opt_string_json(&item.due_date));
    json.set("status", string_json(item.status.as_str()));
    json
}

fn merge_texts(board: &mut Json, field: &str, values: &Vec<String>)
    requires
        is_mergeable(old(board)@),
    ensures
        final(board)@ == with_texts(old(board)@, field@, texts(values@)),
{
    let ghost start = board@;
    let mut items = board.take_array(field);
    let ghost had = items_model(items@);
    let ghost all = texts(values@);
    let mut i: usize = 0;
    while i < values.len()
        invariant
            i <= values@.len(),
            all == texts(values@),
            items_model(items@) == merged_texts(had, all.take(i as int)),
        decreases values@.len() - i,
    {
        let ghost before = items_model(items@);
        proof {
            assert(all.take(i + 1).drop_last() == all.take(i as int));
            assert(all.take(i + 1).last() == values@[i as int]@);
        }
        if !array_holds_text(&items, values[i].as_str()) {
            let added = string_json(values[i].as_str());
            items.push(added);
            assert(items_model(items@) =~= before.push(added@));
        }
        i += 1;
    }
    assert(all.take(i as int) == all);
    board.set(field, Json::Array(items));
    proof {
        let target = with_texts(start, field@, all);
        assert(board@ is Object);
        assert(board@->Object_0 =~= target->Object_0);
    }
}

fn merge_actions(board: &mut Json, added: &Vec<ActionItem>)
    requires
        is_mergeable(old(board)@),
    ensures
        final(board)@ == with_actions(old(board)@, actions(added@)),
{
    let ghost start = board@;
    let mut items = board.take_array("action_items");
    let ghost had = items_model(items@);
    let ghost all = actions(added@);
    let mut i: usize = 0;
    while i < added.len()
        invariant
            i <= added@.len(),
            all == actions(added@),
            items_model(items@) == merged_actions(had, all.take(i as int)),
        decreases added@.len() - i,
    {
        let ghost before = items_model(items@);
        proof {
            assert(all.take(i + 1).drop_last() == all.take(i as int));
            assert(all.take(i + 1).last() == added@[i as int]@);
        }
        if !array_holds_content(&items, added[i].content.as_str()) {
            let value = action_json(&added[i]);
            items.push(value);
            assert(items_model(items@) =~= before.push(value@));
        }
        i += 1;
    }
    assert(all.take(i as int) == all);
    board.set("action_items", Json::Array(items));
    proof {
        let target = with_actions(start, all);
        assert(board@ is Object);
        assert(board@->Object_0 =~= target->Object_0);
    }
}

/// Adds a summary to a board. What the board has stays as it is; a text, and an
/// action item by its content, is added only where the board does not hold it yet.
pub fn merge_board(board: &mut Json, summary: &SummaryDocument)
    requires
        is_mergeable(old(board)@),
    ensures
        final(board)@ == merged_board(old(board)@, summary@),
{
    merge_texts(board, "topics", &summary.topics);
    merge_texts(board, "decisions", &summary.decisions);
    merge_texts(board, "open_questions", &summary.open_questions);
    merge_texts(board, "risks", &summary.risks);
    merge_texts(board, "key_points", &summary.key_points);
    merge_actions(board, &summary.action_items);
}

/// Texts as an array.
pub open spec fn text_array(values: Seq<Seq<char>>) -> JsonView {
    JsonView::Array(values.map_values(|t: Seq<char>| JsonView::Str(t)))
}

/// A summary as a value.
pub open spec fn summary_value(summary: SummaryView) -> JsonView {
    JsonView::Object(
        Map::<Seq<char>, JsonView>::empty().insert("topics"@, text_array(summary.topics)).insert(
            "decisions"@,
            text_array(summary.decisions),
        ).insert(
            "action_items"@,
            JsonView::Array(
                summary.action_items.map_values(|item: ActionItemView| action_value(item)),
            ),
        ).insert("open_questions"@, text_array(summary.open_questions)).insert(
            "risks"@,
            text_array(summary.risks),
        ).insert("key_points"@, text_array(summary.key_points)),
    )
}

fn text_array_json(values: &Vec<String>) -> (json: Json)
    ensures
        json@ == text_array(texts(values@)),
{
    let mut items: Vec<Json> = Vec::new();
    let mut i: usize = 0;
    while i < values.len()
        invariant
            i <= values@.len(),
            items@.len() == i,
            forall|j: int| 0 <= j < i ==> (#[trigger] items@[j])@ == JsonView::Str(values@[j]@),
        decreases values@.len() - i,
    {
        items.push(string_json(values[i].as_str()));
        i += 1;
    }
    let json = Json::Array(items);
    assert(json@->Array_0 =~= text_array(texts(values@))->Array_0);
    json
}

/// A summary as a value.
pub fn summary_json(summary: &SummaryDocument) -> (json: Json)
    ensures
        json@ == summary_value(summary@),
{
    let mut items: Vec<Json> = Vec::new();
    let mut i: usize = 0;
    while i < summary.action_items.len()
        invariant
            i <= summary.action_items@.len(),
            items@.len() == i,
            forall|j: int|
                0 <= j < i ==> (#[trigger] items@[j])@ == action_value(summary.action_items@[j]@),
        decreases summary.action_items@.len() - i,
    {
        items.push(action_json(&summary.action_items[i]));
        i += 1;
    }
    let list = Json::Array(items);
    assert(list@->Array_0 =~= summary@.action_items.map_values(
        |item: ActionItemView| action_value(item),
    ));
    let mut json = Json::Null;
    json.set("topics", text_array_json(&summary.topics));
    json.set("decisions", text_array_json(&summary.decisions));
    json.set("action_items", list);
    json.set("open_questions", text_array_json(&summary.open_questions));
    json.set("risks", text_array_json(&summary.risks));
    json.set("key_points", text_array_json(&summary.key_points));
    json
}

proof fn lemma_merged_texts_grow(items: Seq<JsonView>, values: Seq<Seq<char>>)
    ensures
        items.len() <= merged_texts(items, values).len(),
        merged_texts(items, values).take(items.len() as int) == items,
    decreases values.len(),
{
    if values.len() > 0 {
        lemma_merged_texts_grow(items, values.drop_last());
        let before = merged_texts(items, values.drop_last());
        assert(before.push(JsonView::Str(values.last())).take(items.len() as int) =~= before.take(
            items.len() as int,
        ));
    } else {
        assert(items.take(items.len() as int) =~= items);
    }
}

proof fn lemma_merged_texts_hold(items: Seq<JsonView>, values: Seq<Seq<char>>, k: int)
    requires
        0 <= k < values.len(),
    ensures
        holds_text(merged_texts(items, values), values[k]),
    decreases values.len(),
{
    let before = merged_texts(items, values.drop_last());
    let after = merged_texts(items, values);
    if k < values.len() - 1 {
        lemma_merged_texts_hold(items, values.drop_last(), k);
        let i = choose|i: int| 0 <= i < before.len() && as_text(#[trigger] before[i]) == Some(values[k]);
        assert(after[i] == before[i]);
    } else if !holds_text(before, values[k]) {
        assert(after[after.len() - 1] == JsonView::Str(values[k]));
    }
}

proof fn lemma_held_texts_add_nothing(items: Seq<JsonView>, values: Seq<Seq<char>>)
    requires
        forall|k: int| 0 <= k < values.len() ==> holds_text(items, #[trigger] values[k]),
    ensures
        merged_texts(items, values) == items,
    decreases values.len(),
{
    if values.len() > 0 {
        assert forall|k: int| 0 <= k < values.drop_last().len() implies holds_text(
            items,
            #[trigger] values.drop_last()[k],
        ) by {
            assert(values.drop_last()[k] == values[k]);
        }
        lemma_held_texts_add_nothing(items, values.drop_last());
        assert(holds_text(items, values[values.len() - 1]));
    }
}

proof fn lemma_merged_actions_grow(items: Seq<JsonView>, added: Seq<ActionItemView>)
    ensures
        items.len() <= merged_actions(items, added).len(),
        merged_actions(items, added).take(items.len() as int) == items,
    decreases added.len(),
{
    if added.len() > 0 {
        lemma_merged_actions_grow(items, added.drop_last());
        let before = merged_actions(items, added.drop_last());
        assert(before.push(action_value(added.last())).take(items.len() as int) =~= before.take(
            items.len() as int,
        ));
    } else {
        assert(items.take(items.len() as int) =~= items);
    }
}

proof fn lemma_action_has_content(item: ActionItemView)
    ensures
        content_of(action_value(item)) == Some(item.content),
{
    reveal_strlit("content");
    reveal_strlit("owner");
    reveal_strlit("due_date");
    reveal_strlit("status");
    assert("content"@.len() == 7 && "owner"@.len() == 5 && "due_date"@.len() == 8 && "status"@.len()
        == 6);
}

proof fn lemma_merged_actions_hold(items: Seq<JsonView>, added: Seq<ActionItemView>, k: int)
    requires
        0 <= k < added.len(),
    ensures
        holds_content(merged_actions(items, added), added[k].content),
    decreases added.len(),
{
    let before = merged_actions(items, added.drop_last());
    let after = merged_actions(items, added);
    if k < added.len() - 1 {
        lemma_merged_actions_hold(items, added.drop_last(), k);
        let i = choose|i: int|
            0 <= i < before.len() && content_of(#[trigger] before[i]) == Some(added[k].content);
        assert(after[i] == before[i]);
    } else if !holds_content(before, added[k].content) {
        lemma_action_has_content(added[k]);
        assert(after[after.len() - 1] == action_value(added[k]));
    }
}

proof fn lemma_held_actions_add_nothing(items: Seq<JsonView>, added: Seq<ActionItemView>)
    requires
        forall|k: int| 0 <= k < added.len() ==> holds_content(items, (#[trigger] added[k]).content),
    ensures
        merged_actions(items, added) == items,
    decreases added.len(),
{
    if added.len() > 0 {
        assert forall|k: int| 0 <= k < added.drop_last().len() implies holds_content(
            items,
            (#[trigger] added.drop_last()[k]).content,
        ) by {
            assert(added.drop_last()[k] == added[k]);
        }
        lemma_held_actions_add_nothing(items, added.drop_last());
        assert(holds_content(items, added[added.len() - 1].content));
    }
}

/// The names of the board's lists are different from one another.
proof fn lemma_field_names()
    ensures
        "topics"@.len() == 6,
        "decisions"@.len() == 9,
        "open_questions"@.len() == 14,
        "risks"@.len() == 5,
        "key_points"@.len() == 10,
        "action_items"@.len() == 12,
{
    reveal_strlit("topics");
    reveal_strlit("decisions");
    reveal_strlit("open_questions");
    reveal_strlit("risks");
    reveal_strlit("key_points");
    reveal_strlit("action_items");
}

/// Whether a key is the name of one of the board's lists.
pub open spec fn is_list_name(key: Seq<char>) -> bool {
    ||| key == "topics"@
    ||| key == "decisions"@
    ||| key == "open_questions"@
    ||| key == "risks"@
    ||| key == "key_points"@
    ||| key == "action_items"@
}

/// What a merged board holds, list by list: each list is the one it had, with
/// what the summary adds behind it; every other member is as it was.
pub proof fn law_merge_adds_list_by_list(board: JsonView, summary: SummaryView, key: Seq<char>)
    requires
        is_mergeable(board),
    ensures
        merged_board(board, summary) is Object,
        member(merged_board(board, summary), "topics"@) == Some(
            JsonView::Array(merged_texts(array_member(board, "topics"@), summary.topics)),
        ),
        member(merged_board(board, summary), "decisions"@) == Some(
            JsonView::Array(merged_texts(array_member(board, "decisions"@), summary.decisions)),
        ),
        member(merged_board(board, summary), "open_questions"@) == Some(
            JsonView::Array(
                merged_texts(array_member(board, "open_questions"@), summary.open_questions),
            ),
        ),
        member(merged_board(board, summary), "risks"@) == Some(
            JsonView::Array(merged_texts(array_member(board, "risks"@), summary.risks)),
        ),
        member(merged_board(board, summary), "key_points"@) == Some(
            JsonView::Array(merged_texts(array_member(board, "key_points"@), summary.key_points)),
        ),
        member(merged_board(board, summary), "action_items"@) == Some(
            JsonView::Array(
                merged_actions(array_member(board, "action_items"@), summary.action_items),
            ),
        ),
        !is_list_name(key) ==> member(merged_board(board, summary), key) == member(board, key),
{
    lemma_field_names();
}

/// Adding the same summary a second time changes nothing.
pub proof fn law_merge_is_idempotent(board: JsonView, summary: SummaryView)
    requires
        is_mergeable(board),
    ensures
        merged_board(merged_board(board, summary), summary) == merged_board(board, summary),
{
    let once = merged_board(board, summary);
    lemma_field_names();
    law_merge_adds_list_by_list(board, summary, "topics"@);
    assert forall|k: int| 0 <= k < summary.topics.len() implies holds_text(
        array_member(once, "topics"@),
        #[trigger] summary.topics[k],
    ) by {
        lemma_merged_texts_hold(array_member(board, "topics"@), summary.topics, k);
    }
    assert forall|k: int| 0 <= k < summary.decisions.len() implies holds_text(
        array_member(once, "decisions"@),
        #[trigger] summary.decisions[k],
    ) by {
        lemma_merged_texts_hold(array_member(board, "decisions"@), summary.decisions, k);
    }
    assert forall|k: int| 0 <= k < summary.open_questions.len() implies holds_text(
        array_member(once, "open_questions"@),
        #[trigger] summary.open_questions[k],
    ) by {
        lemma_merged_texts_hold(array_member(board, "open_questions"@), summary.open_questions, k);
    }
    assert forall|k: int| 0 <= k < summary.risks.len() implies holds_text(
        array_member(once, "risks"@),
        #[trigger] summary.risks[k],
    ) by {
        lemma_merged_texts_hold(array_member(board, "risks"@), summary.risks, k);
    }
    assert forall|k: int| 0 <= k < summary.key_points.len() implies holds_text(
        array_member(once, "key_points"@),
        #[trigger] summary.key_points[k],
    ) by {
        lemma_merged_texts_hold(array_member(board, "key_points"@), summary.key_points, k);
    }
    assert forall|k: int| 0 <= k < summary.action_items.len() implies holds_content(
        array_member(once, "action_items"@),
        (#[trigger] summary.action_items[k]).content,
    ) by {
        lemma_merged_actions_hold(array_member(board, "action_items"@), summary.action_items, k);
    }
    lemma_held_texts_add_nothing(array_member(once, "topics"@), summary.topics);
    lemma_held_texts_add_nothing(array_member(once, "decisions"@), summary.decisions);
    lemma_held_texts_add_nothing(array_member(once, "open_questions"@), summary.open_questions);
    lemma_held_texts_add_nothing(array_member(once, "risks"@), summary.risks);
    lemma_held_texts_add_nothing(array_member(once, "key_points"@), summary.key_points);
    lemma_held_actions_add_nothing(array_member(once, "action_items"@), summary.action_items);
    lemma_same_member_changes_nothing(once, "topics"@);
    lemma_same_member_changes_nothing(once, "decisions"@);
    lemma_same_member_changes_nothing(once, "open_questions"@);
    lemma_same_member_changes_nothing(once, "risks"@);
    lemma_same_member_changes_nothing(once, "key_points"@);
    lemma_same_member_changes_nothing(once, "action_items"@);
}

proof fn lemma_same_member_changes_nothing(v: JsonView, key: Seq<char>)
    requires
        member(v, key) is Some,
    ensures
        with_member(v, key, member(v, key).unwrap()) == v,
{
    assert(v->Object_0.insert(key, v->Object_0[key]) =~= v->Object_0);
}

/// Adding a summary keeps what a list of texts holds, in its order and at its
/// place, and leaves each added text in it.
pub proof fn law_merge_keeps_and_adds_texts(items: Seq<JsonView>, values: Seq<Seq<char>>, k: int)
    requires
        0 <= k < values.len(),
    ensures
        items.len() <= merged_texts(items, values).len(),
        merged_texts(items, values).take(items.len() as int) == items,
        holds_text(merged_texts(items, values), values[k]),
{
    lemma_merged_texts_grow(items, values);
    lemma_merged_texts_hold(items, values, k);
}

/// Adding a summary keeps the action items of the board, in their order and at
/// their place, and leaves one with the content of each added item among them.
pub proof fn law_merge_keeps_and_adds_actions(
    items: Seq<JsonView>,
    added: Seq<ActionItemView>,
    k: int,
)
    requires
        0 <= k < added.len(),
    ensures
        items.len() <= merged_actions(items, added).len(),
        merged_actions(items, added).take(items.len() as int) == items,
        holds_content(merged_actions(items, added), added[k].content),
{
    lemma_merged_actions_grow(items, added);
    lemma_merged_actions_hold(items, added, k);
}

/// Whether no text occurs twice in an array.
pub open spec fn texts_differ(items: Seq<JsonView>) -> bool {
    forall|i: int, j: int|
        0 <= i < j < items.len() && as_text(#[trigger] items[i]) is Some ==> as_text(items[i])
            != as_text(#[trigger] items[j])
}

/// Whether no content occurs twice among action items.
pub open spec fn contents_differ(items: Seq<JsonView>) -> bool {
    forall|i: int, j: int|
        0 <= i < j < items.len() && content_of(#[trigger] items[i]) is Some ==> content_of(items[i])
            != content_of(#[trigger] items[j])
}

/// A list of texts that differ stays one when texts are added.
pub proof fn law_merged_texts_differ(items: Seq<JsonView>, values: Seq<Seq<char>>)
    requires
        texts_differ(items),
    ensures
        texts_differ(merged_texts(items, values)),
    decreases values.len(),
{
    if values.len() > 0 {
        law_merged_texts_differ(items, values.drop_last());
    }
}

/// A list of action items whose contents differ stays one when items are added.
pub proof fn law_merged_contents_differ(items: Seq<JsonView>, added: Seq<ActionItemView>)
    requires
        contents_differ(items),
    ensures
        contents_differ(merged_actions(items, added)),
    decreases added.len(),
{
    if added.len() > 0 {
        law_merged_contents_differ(items, added.drop_last());
        lemma_action_has_content(added.last());
    }
}

proof fn lemma_list_keys_are_free()
    ensures
        "topics"@ != reserved_key(),
        "decisions"@ != reserved_key(),
        "open_questions"@ != reserved_key(),
        "risks"@ != reserved_key(),
        "key_points"@ != reserved_key(),
        "action_items"@ != reserved_key(),
{
    reveal_strlit("topics");
    reveal_strlit("decisions");
    reveal_strlit("open_questions");
    reveal_strlit("risks");
    reveal_strlit("key_points");
    reveal_strlit("action_items");
    lemma_key_is_free("topics"@);
    lemma_key_is_free("decisions"@);
    lemma_key_is_free("open_questions"@);
    lemma_key_is_free("risks"@);
    lemma_key_is_free("key_points"@);
    lemma_key_is_free("action_items"@);
}

proof fn lemma_item_keys_are_free()
    ensures
        "content"@ != reserved_key(),
        "owner"@ != reserved_key(),
        "due_date"@ != reserved_key(),
        "status"@ != reserved_key(),
{
    reveal_strlit("content");
    reveal_strlit("owner");
    reveal_strlit("due_date");
    reveal_strlit("status");
    lemma_key_is_free("content"@);
    lemma_key_is_free("owner"@);
    lemma_key_is_free("due_date"@);
    lemma_key_is_free("status"@);
}

proof fn lemma_plain_texts(items: Seq<JsonView>, values: Seq<Seq<char>>, depth: nat)
    requires
        forall|i: int| 0 <= i < items.len() ==> plain(#[trigger] items[i], depth),
    ensures
        forall|i: int|
            0 <= i < merged_texts(items, values).len() ==> plain(
                #[trigger] merged_texts(items, values)[i],
                depth,
            ),
    decreases values.len(),
{
    if values.len() > 0 {
        lemma_plain_texts(items, values.drop_last(), depth);
        let before = merged_texts(items, values.drop_last());
        let after = merged_texts(items, values);
        assert forall|i: int| 0 <= i < after.len() implies plain(#[trigger] after[i], depth) by {
            if i < before.len() {
                assert(after[i] == before[i]);
            }
        }
    }
}

proof fn lemma_plain_actions(items: Seq<JsonView>, added: Seq<ActionItemView>, depth: nat)
    requires
        depth >= 1,
        forall|i: int| 0 <= i < items.len() ==> plain(#[trigger] items[i], depth),
    ensures
        forall|i: int|
            0 <= i < merged_actions(items, added).len() ==> plain(
                #[trigger] merged_actions(items, added)[i],
                depth,
            ),
    decreases added.len(),
{
    if added.len() > 0 {
        lemma_plain_actions(items, added.drop_last(), depth);
        let item = added.last();
        let v = action_value(item);
        assert forall|k: Seq<char>| #[trigger] v->Object_0.contains_key(k) implies k
            != reserved_key() && plain(v->Object_0[k], (depth - 1) as nat) by {
            assert(v->Object_0[k] is Str || v->Object_0[k] is Null);
            lemma_item_keys_are_free();
        }
        assert(plain(v, depth));
        let before = merged_actions(items, added.drop_last());
        let after = merged_actions(items, added);
        assert forall|i: int| 0 <= i < after.len() implies plain(#[trigger] after[i], depth) by {
            if i < before.len() {
                assert(after[i] == before[i]);
            }
        }
    }
}

proof fn lemma_plain_member(board: JsonView, key: Seq<char>, value: JsonView)
    requires
        is_mergeable(board),
        plain(board, 100),
        plain(value, 99),
        key != reserved_key(),
    ensures
        plain(with_member(board, key, value), 100),
{
    let v = with_member(board, key, value);
    assert forall|k: Seq<char>| #[trigger] v->Object_0.contains_key(k) implies k != reserved_key()
        && plain(v->Object_0[k], 99) by {
        if k != key {
            assert(board->Object_0.contains_key(k));
        }
    }
}

proof fn lemma_plain_array(board: JsonView, key: Seq<char>)
    requires
        is_mergeable(board),
        plain(board, 100),
    ensures
        forall|i: int|
            0 <= i < array_member(board, key).len() ==> plain(
                #[trigger] array_member(board, key)[i],
                98,
            ),
{
    if let Some(v) = member(board, key) {
        assert(board->Object_0.contains_key(key));
        assert(plain(v, 99));
    }
}

proof fn lemma_plain_with_texts(board: JsonView, key: Seq<char>, values: Seq<Seq<char>>)
    requires
        is_mergeable(board),
        plain(board, 100),
        key != reserved_key(),
    ensures
        plain(with_texts(board, key, values), 100),
{
    lemma_plain_array(board, key);
    let items = array_member(board, key);
    lemma_plain_texts(items, values, 98);
    assert(plain(JsonView::Array(merged_texts(items, values)), 99));
    lemma_plain_member(board, key, JsonView::Array(merged_texts(items, values)));
}

/// A plain board stays one when a summary is added, so that it is read back from its
/// text as it was written.
pub proof fn law_merged_board_is_plain(board: JsonView, summary: SummaryView)
    requires
        is_mergeable(board),
        plain(board, 100),
    ensures
        plain(merged_board(board, summary), 100),
{
    lemma_list_keys_are_free();
    let b1 = with_texts(board, "topics"@, summary.topics);
    let b2 = with_texts(b1, "decisions"@, summary.decisions);
    let b3 = with_texts(b2, "open_questions"@, summary.open_questions);
    let b4 = with_texts(b3, "risks"@, summary.risks);
    let b5 = with_texts(b4, "key_points"@, summary.key_points);
    lemma_plain_with_texts(board, "topics"@, summary.topics);
    lemma_plain_with_texts(b1, "decisions"@, summary.decisions);
    lemma_plain_with_texts(b2, "open_questions"@, summary.open_questions);
    lemma_plain_with_texts(b3, "risks"@, summary.risks);
    lemma_plain_with_texts(b4, "key_points"@, summary.key_points);
    lemma_plain_array(b5, "action_items"@);
    let items = array_member(b5, "action_items"@);
    lemma_plain_actions(items, summary.action_items, 98);
    assert(plain(JsonView::Array(merged_actions(items, summary.action_items)), 99));
    lemma_plain_member(
        b5,
        "action_items"@,
        JsonView::Array(merged_actions(items, summary.action_items)),
    );
}

/// The empty board is plain.
pub proof fn law_empty_board_is_plain()
    ensures
        is_mergeable(empty_board_value()),
        plain(empty_board_value(), 100),
{
    let v = empty_board_value();
    lemma_list_keys_are_free();
    assert forall|k: Seq<char>| #[trigger] v->Object_0.contains_key(k) implies k != reserved_key()
        && plain(v->Object_0[k], 99) by {
        assert(v->Object_0[k] == JsonView::Array(Seq::empty()));
    }
}

/// A summary is read back from its text.
pub proof fn law_summary_is_plain(summary: SummaryView)
    ensures
        plain(summary_value(summary), 100),
{
    let v = summary_value(summary);
    assert forall|values: Seq<Seq<char>>| plain(#[trigger] text_array(values), 99) by {
        let texts = text_array(values)->Array_0;
        assert forall|i: int| 0 <= i < texts.len() implies plain(#[trigger] texts[i], 98) by {
            assert(texts[i] == JsonView::Str(values[i]));
        }
    }
    let items = summary.action_items.map_values(|item: ActionItemView| action_value(item));
    assert forall|i: int| 0 <= i < items.len() implies plain(#[trigger] items[i], 98) by {
        let item = action_value(summary.action_items[i]);
        assert(items[i] == item);
        assert forall|k: Seq<char>| #[trigger] item->Object_0.contains_key(k) implies k
            != reserved_key() && plain(item->Object_0[k], 97) by {
            lemma_item_keys_are_free();
        }
    }
    assert(plain(JsonView::Array(items), 99));
    lemma_list_keys_are_free();
    assert forall|k: Seq<char>| #[trigger] v->Object_0.contains_key(k) implies k != reserved_key()
        && plain(v->Object_0[k], 99) by {
        assert(plain(text_array(summary.topics), 99));
        assert(plain(text_array(summary.decisions), 99));
        assert(plain(text_array(summary.open_questions), 99));
        assert(plain(text_array(summary.risks), 99));
        assert(plain(text_array(summary.key_points), 99));
    }
}

/// The value of an action item has four members and no others: its content, its owner,
/// its date and its status, each the item's own; an owner or a date that the item does
/// not have is null.
pub proof fn law_action_value_has_its_own_fields(item: ActionItemView)
    ensures
        ({
            let v = action_value(item);
            &&& v is Object
            &&& v->Object_0.dom() == set!["content"@, "owner"@, "due_date"@, "status"@]
            &&& v->Object_0["content"@] == JsonView::Str(item.content)
            &&& v->Object_0["owner"@] == match item.owner {
                Some(t) => JsonView::Str(t),
                None => JsonView::Null,
            }
            &&& v->Object_0["due_date"@] == match item.due_date {
                Some(t) => JsonView::Str(t),
                None => JsonView::Null,
            }
            &&& v->Object_0["status"@] == JsonView::Str(item.status)
        }),
{
    lemma_item_names();
    assert(action_value(item)->Object_0.dom() =~= set![
        "content"@,
        "owner"@,
        "due_date"@,
        "status"@,
    ]);
}

proof fn lemma_item_names()
    ensures
        "content"@.len() == 7,
        "owner"@.len() == 5,
        "due_date"@.len() == 8,
        "status"@.len() == 6,
{
    reveal_strlit("content");
    reveal_strlit("owner");
    reveal_strlit("due_date");
    reveal_strlit("status");
}

/// Two action items have the same value only if they are the same.
pub proof fn law_action_value_is_injective(a: ActionItemView, b: ActionItemView)
    requires
        action_value(a) == action_value(b),
    ensures
        a == b,
{
    law_action_value_has_its_own_fields(a);
    law_action_value_has_its_own_fields(b);
}

/// Whether an array holds these texts, one for one and in order.
pub open spec fn is_text_list(v: JsonView, values: Seq<Seq<char>>) -> bool {
    &&& v is Array
    &&& v->Array_0.len() == values.len()
    &&& forall|i: int|
        0 <= i < values.len() ==> #[trigger] v->Array_0[i] == JsonView::Str(values[i])
}

/// The value of a summary has six lists and no other member: each list of texts of the
/// summary under its own name, and its action items, each as its value.
pub proof fn law_summary_value_has_its_own_lists(summary: SummaryView)
    ensures
        ({
            let v = summary_value(summary);
            &&& v is Object
            &&& v->Object_0.dom() == set![
                "topics"@,
                "decisions"@,
                "action_items"@,
                "open_questions"@,
                "risks"@,
                "key_points"@,
            ]
            &&& is_text_list(v->Object_0["topics"@], summary.topics)
            &&& is_text_list(v->Object_0["decisions"@], summary.decisions)
            &&& is_text_list(v->Object_0["open_questions"@], summary.open_questions)
            &&& is_text_list(v->Object_0["risks"@], summary.risks)
            &&& is_text_list(v->Object_0["key_points"@], summary.key_points)
            &&& v->Object_0["action_items"@] is Array
            &&& v->Object_0["action_items"@]->Array_0.len() == summary.action_items.len()
            &&& forall|i: int|
                0 <= i < summary.action_items.len() ==> v->Object_0["action_items"@]->Array_0[i]
                    == action_value(#[trigger] summary.action_items[i])
        }),
{
    lemma_field_names();
    assert(summary_value(summary)->Object_0.dom() =~= set![
        "topics"@,
        "decisions"@,
        "action_items"@,
        "open_questions"@,
        "risks"@,
        "key_points"@,
    ]);
}

/// The board of a meeting without summaries has six lists, all of them empty, and no
/// other member.
pub proof fn law_empty_board_has_empty_lists()
    ensures
        ({
            let v = empty_board_value();
            &&& v is Object
            &&& v->Object_0.dom() == set![
                "topics"@,
                "decisions"@,
                "action_items"@,
                "open_questions"@,
                "risks"@,
                "key_points"@,
            ]
            &&& forall|k: Seq<char>| #[trigger]
                v->Object_0.contains_key(k) ==> v->Object_0[k] is Array
                    && v->Object_0[k]->Array_0.len() == 0
        }),
{
    assert(empty_board_value()->Object_0.dom() =~= set![
        "topics"@,
        "decisions"@,
        "action_items"@,
        "open_questions"@,
        "risks"@,
        "key_points"@,
    ]);
}

/// Whether a list is the old one with those of some texts behind it, in their order,
/// that were not in it yet, and no other.
pub open spec fn texts_added(
    old_items: Seq<JsonView>,
    values: Seq<Seq<char>>,
    new_items: Seq<JsonView>,
) -> bool {
    &&& exists|from: Seq<int>| #[trigger]
        places_rise(from, values.len()) && new_items == old_items + Seq::new(
            from.len(),
            |i: int| JsonView::Str(values[from[i]]),
        )
    &&& forall|k: int|
        0 <= k < values.len() ==> new_items.contains(JsonView::Str(#[trigger] values[k]))
    &&& forall|i: int, j: int|
        0 <= i < j < new_items.len() && old_items.len() <= j ==> #[trigger] new_items[i]
            != #[trigger] new_items[j]
}

/// Whether a value says that this is to be done.
pub open spec fn says(item: JsonView, content: Seq<char>) -> bool {
    item is Object && item->Object_0.contains_key("content"@) && item->Object_0["content"@]
        == JsonView::Str(content)
}

/// Whether a list is the old one with those of some action items behind it, in their
/// order, whose content was not in it yet, and no other.
pub open spec fn actions_added(
    old_items: Seq<JsonView>,
    added: Seq<ActionItemView>,
    new_items: Seq<JsonView>,
) -> bool {
    &&& exists|from: Seq<int>| #[trigger]
        places_rise(from, added.len()) && new_items == old_items + Seq::new(
            from.len(),
            |i: int| action_value(added[from[i]]),
        ) && forall|i: int, j: int|
            0 <= i < from.len() && 0 <= j < old_items.len() + i ==> !says(
                #[trigger] new_items[j],
                added[#[trigger] from[i]].content,
            )
    &&& forall|k: int|
        0 <= k < added.len() ==> exists|i: int|
            0 <= i < new_items.len() && says(
                #[trigger] new_items[i],
                (#[trigger] added[k]).content,
            )
}

proof fn lemma_texts_are_added(items: Seq<JsonView>, values: Seq<Seq<char>>) -> (from: Seq<int>)
    ensures
        places_rise(from, values.len()),
        merged_texts(items, values) == items + Seq::new(
            from.len(),
            |i: int| JsonView::Str(values[from[i]]),
        ),
        forall|i: int, j: int|
            0 <= i < j < merged_texts(items, values).len() && items.len() <= j
                ==> #[trigger] merged_texts(items, values)[i] != #[trigger] merged_texts(
                items,
                values,
            )[j],
    decreases values.len(),
{
    let new_items = merged_texts(items, values);
    if values.len() == 0 {
        let from = Seq::<int>::empty();
        assert(new_items =~= items + Seq::new(
            from.len(),
            |i: int| JsonView::Str(values[from[i]]),
        ));
        from
    } else {
        let front = values.drop_last();
        let before = merged_texts(items, front);
        let from = lemma_texts_are_added(items, front);
        let last = (values.len() - 1) as int;
        if holds_text(before, values.last()) {
            assert(new_items =~= items + Seq::new(
                from.len(),
                |i: int| JsonView::Str(values[from[i]]),
            )) by {
                assert(forall|i: int| 0 <= i < from.len() ==> front[#[trigger] from[i]]
                    == values[from[i]]);
            }
            from
        } else {
            let more = from.push(last);
            assert(forall|i: int| 0 <= i < from.len() ==> front[#[trigger] from[i]]
                == values[from[i]]);
            assert(new_items =~= items + Seq::new(
                more.len(),
                |i: int| JsonView::Str(values[more[i]]),
            ));
            assert forall|i: int, j: int|
                0 <= i < j < new_items.len() && items.len() <= j implies #[trigger] new_items[i]
                != #[trigger] new_items[j] by {
                if j == before.len() {
                    assert(as_text(before[i]) != Some(values.last()));
                } else {
                    assert(new_items[i] == before[i] && new_items[j] == before[j]);
                }
            }
            more
        }
    }
}

/// Adding texts to a list leaves the old ones in their places and adds those that the
/// list does not hold, in order, each once.
pub proof fn law_texts_are_added(items: Seq<JsonView>, values: Seq<Seq<char>>)
    ensures
        texts_added(items, values, merged_texts(items, values)),
{
    let new_items = merged_texts(items, values);
    let from = lemma_texts_are_added(items, values);
    assert(places_rise(from, values.len()));
    assert forall|k: int| 0 <= k < values.len() implies new_items.contains(
        JsonView::Str(#[trigger] values[k]),
    ) by {
        lemma_merged_texts_hold(items, values, k);
        let i = choose|i: int|
            0 <= i < new_items.len() && as_text(#[trigger] new_items[i]) == Some(values[k]);
        assert(new_items[i] == JsonView::Str(values[k]));
    }
}

proof fn lemma_actions_are_added(items: Seq<JsonView>, added: Seq<ActionItemView>) -> (from: Seq<
    int,
>)
    ensures
        places_rise(from, added.len()),
        merged_actions(items, added) == items + Seq::new(
            from.len(),
            |i: int| action_value(added[from[i]]),
        ),
        forall|i: int, j: int|
            0 <= i < from.len() && 0 <= j < items.len() + i ==> !says(
                #[trigger] merged_actions(items, added)[j],
                added[#[trigger] from[i]].content,
            ),
    decreases added.len(),
{
    let new_items = merged_actions(items, added);
    if added.len() == 0 {
        let from = Seq::<int>::empty();
        assert(new_items =~= items + Seq::new(from.len(), |i: int| action_value(added[from[i]])));
        from
    } else {
        let front = added.drop_last();
        let before = merged_actions(items, front);
        let from = lemma_actions_are_added(items, front);
        let last = (added.len() - 1) as int;
        assert(forall|i: int| 0 <= i < from.len() ==> front[#[trigger] from[i]] == added[from[i]]);
        if holds_content(before, added.last().content) {
            assert(new_items =~= items + Seq::new(
                from.len(),
                |i: int| action_value(added[from[i]]),
            ));
            from
        } else {
            let more = from.push(last);
            assert(new_items =~= items + Seq::new(
                more.len(),
                |i: int| action_value(added[more[i]]),
            ));
            assert forall|i: int, j: int|
                0 <= i < more.len() && 0 <= j < items.len() + i implies !says(
                #[trigger] new_items[j],
                added[#[trigger] more[i]].content,
            ) by {
                assert(new_items[j] == before[j]);
                if i < from.len() {
                    assert(more[i] == from[i]);
                } else {
                    assert(content_of(before[j]) != Some(added.last().content));
                }
            }
            more
        }
    }
}

/// Adding action items to a list leaves the old ones in their places and adds those
/// whose content the list does not hold, in order, each with its own fields.
pub proof fn law_actions_are_added(items: Seq<JsonView>, added: Seq<ActionItemView>)
    ensures
        actions_added(items, added, merged_actions(items, added)),
{
    let new_items = merged_actions(items, added);
    let from = lemma_actions_are_added(items, added);
    assert(places_rise(from, added.len()));
    assert forall|k: int| 0 <= k < added.len() implies exists|i: int|
        0 <= i < new_items.len() && says(
            #[trigger] new_items[i],
            (#[trigger] added[k]).content,
        ) by {
        lemma_merged_actions_hold(items, added, k);
        let i = choose|i: int|
            0 <= i < new_items.len() && content_of(#[trigger] new_items[i]) == Some(
                added[k].content,
            );
        assert(says(new_items[i], added[k].content));
    }
}

/// Adding a summary to a board adds to each of its lists what the summary has for that
/// list, and to no other: the topics to the topics, the decisions to the decisions, the
/// open questions to the open questions, the risks to the risks, the key points to the
/// key points and the action items to the action items. A list that the board does not
/// have starts out empty; every other member stays as it is.
pub proof fn law_merge_adds_each_list_to_its_own(board: JsonView, summary: SummaryView)
    requires
        is_mergeable(board),
    ensures
        ({
            let new = merged_board(board, summary);
            &&& new is Object
            &&& new->Object_0.contains_key("topics"@) && new->Object_0["topics"@] is Array
                && texts_added(
                array_member(board, "topics"@),
                summary.topics,
                new->Object_0["topics"@]->Array_0,
            )
            &&& new->Object_0.contains_key("decisions"@) && new->Object_0["decisions"@] is Array
                && texts_added(
                array_member(board, "decisions"@),
                summary.decisions,
                new->Object_0["decisions"@]->Array_0,
            )
            &&& new->Object_0.contains_key("open_questions"@)
                && new->Object_0["open_questions"@] is Array && texts_added(
                array_member(board, "open_questions"@),
                summary.open_questions,
                new->Object_0["open_questions"@]->Array_0,
            )
            &&& new->Object_0.contains_key("risks"@) && new->Object_0["risks"@] is Array
                && texts_added(
                array_member(board, "risks"@),
                summary.risks,
                new->Object_0["risks"@]->Array_0,
            )
            &&& new->Object_0.contains_key("key_points"@) && new->Object_0["key_points"@] is Array
                && texts_added(
                array_member(board, "key_points"@),
                summary.key_points,
                new->Object_0["key_points"@]->Array_0,
            )
            &&& new->Object_0.contains_key("action_items"@)
                && new->Object_0["action_items"@] is Array && actions_added(
                array_member(board, "action_items"@),
                summary.action_items,
                new->Object_0["action_items"@]->Array_0,
            )
            &&& forall|k: Seq<char>|
                k != "topics"@ && k != "decisions"@ && k != "open_questions"@ && k != "risks"@ && k
                    != "key_points"@ && k != "action_items"@ ==> (
                #[trigger] new->Object_0.contains_key(k) == (board is Object
                    && board->Object_0.contains_key(k))) && (new->Object_0.contains_key(k)
                    ==> new->Object_0[k] == board->Object_0[k])
        }),
{
    lemma_field_names();
    law_merge_adds_list_by_list(board, summary, "topics"@);
    law_texts_are_added(array_member(board, "topics"@), summary.topics);
    law_texts_are_added(array_member(board, "decisions"@), summary.decisions);
    law_texts_are_added(array_member(board, "open_questions"@), summary.open_questions);
    law_texts_are_added(array_member(board, "risks"@), summary.risks);
    law_texts_are_added(array_member(board, "key_points"@), summary.key_points);
    law_actions_are_added(array_member(board, "action_items"@), summary.action_items);
    let new = merged_board(board, summary);
    assert forall|k: Seq<char>|
        k != "topics"@ && k != "decisions"@ && k != "open_questions"@ && k != "risks"@ && k
            != "key_points"@ && k != "action_items"@ implies (
    #[trigger] new->Object_0.contains_key(k) == (board is Object && board->Object_0.contains_key(
        k,
    ))) && (new->Object_0.contains_key(k) ==> new->Object_0[k] == board->Object_0[k]) by {
        law_merge_adds_list_by_list(board, summary, k);
    }
}

/// A summary can be added to any board that is an object, and where there is no board yet.
pub proof fn law_objects_can_be_extended(v: JsonView)
    ensures
        v is Object ==> is_mergeable(v),
        is_mergeable(JsonView::Null),
        is_mergeable(empty_board_value()),
        v is Array || v is Str || v is Bool || v is Number ==> !is_mergeable(v),
{
}

} // verus!
