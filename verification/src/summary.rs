//! Summary documents: what they hold, how they are cleaned, and how one is made
//! without a language model.
use vstd::prelude::*;

use crate::text::{
    clean_option, eq_ignore_ascii_case, opt_text, split_trimmed, text_eq, texts, trim,
};

verus! {

broadcast use vstd::seq_lib::group_seq_properties;

/// Something to be done after the meeting.
#[derive(Debug, Clone, PartialEq)]
pub struct ActionItem {
    /// What is to be done.
    pub content: String,
    /// Who does it.
    pub owner: Option<String>,
    /// By when, mostly an ISO date.
    pub due_date: Option<String>,
    /// `open`, `in_progress`, `done` or `blocked`.
    pub status: String,
}

/// The summary of one window of a meeting.
#[derive(Debug, Clone, PartialEq)]
pub struct SummaryDocument {
    /// What was talked about.
    pub topics: Vec<String>,
    /// What was decided.
    pub decisions: Vec<String>,
    /// What is to be done.
    pub action_items: Vec<ActionItem>,
    /// What stayed open.
    pub open_questions: Vec<String>,
    /// What may go wrong.
    pub risks: Vec<String>,
    /// What else matters.
    pub key_points: Vec<String>,
}

/// The model of an [`ActionItem`].
pub struct ActionItemView {
    pub content: Seq<char>,
    pub owner: Option<Seq<char>>,
    pub due_date: Option<Seq<char>>,
    pub status: Seq<char>,
}

/// The model of a [`SummaryDocument`].
pub struct SummaryView {
    pub topics: Seq<Seq<char>>,
    pub decisions: Seq<Seq<char>>,
    pub action_items: Seq<ActionItemView>,
    pub open_questions: Seq<Seq<char>>,
    pub risks: Seq<Seq<char>>,
    pub key_points: Seq<Seq<char>>,
}

impl View for ActionItem {
    type V = ActionItemView;

    open spec fn view(&self) -> ActionItemView {
        ActionItemView {
            content: self.content@,
            owner: opt_text(self.owner),
            due_date: opt_text(self.due_date),
            status: self.status@,
        }
    }
}

/// The model of a list of action items.
pub open spec fn actions(items: Seq<ActionItem>) -> Seq<ActionItemView> {
    items.map_values(|item: ActionItem| item@)
}

impl View for SummaryDocument {
    type V = SummaryView;

    open spec fn view(&self) -> SummaryView {
        SummaryView {
            topics: texts(self.topics@),
            decisions: texts(self.decisions@),
            action_items: actions(self.action_items@),
            open_questions: texts(self.open_questions@),
            risks: texts(self.risks@),
            key_points: texts(self.key_points@),
        }
    }
}

/// The document without anything in it.
pub open spec fn empty_summary() -> SummaryView {
    SummaryView {
        topics: Seq::empty(),
        decisions: Seq::empty(),
        action_items: Seq::empty(),
        open_questions: Seq::empty(),
        risks: Seq::empty(),
        key_points: Seq::empty(),
    }
}

impl Default for ActionItem {
    fn default() -> (item: Self)
        ensures
            item@ == (ActionItemView {
                content: Seq::empty(),
                owner: None,
                due_date: None,
                status: Seq::empty(),
            }),
    {
        ActionItem { content: String::new(), owner: None, due_date: None, status: String::new() }
    }
}

impl Default for SummaryDocument {
    fn default() -> (document: Self)
        ensures
            document@ == empty_summary(),
    {
        let document = SummaryDocument {
            topics: Vec::new(),
            decisions: Vec::new(),
            action_items: Vec::new(),
            open_questions: Vec::new(),
            risks: Vec::new(),
            key_points: Vec::new(),
        };
        proof {
            assert(texts(document.topics@) =~= Seq::empty());
            assert(texts(document.decisions@) =~= Seq::empty());
            assert(actions(document.action_items@) =~= Seq::empty());
            assert(texts(document.open_questions@) =~= Seq::empty());
            assert(texts(document.risks@) =~= Seq::empty());
            assert(texts(document.key_points@) =~= Seq::empty());
        }
        document
    }
}

/// The status of an action item that states none.
pub fn default_action_status() -> (status: String)
    ensures
        status@ == "open"@,
{
    "open".to_owned()
}

/// How many items a list of a cleaned document holds at most.
pub const MAX_ITEMS: usize = 100;

/// Whether the list holds a text that differs from `t` at most in the case of
/// ASCII letters.
pub open spec fn holds_ignoring_case(list: Seq<Seq<char>>, t: Seq<char>) -> bool {
    exists|i: int|
        0 <= i < list.len() && crate::text::ascii_folded(#[trigger] list[i])
            == crate::text::ascii_folded(t)
}

/// A list of texts after cleaning: each text is trimmed; a blank one, and one
/// that differs from an earlier one at most in the case of ASCII letters, is
/// dropped; and only the first hundred are kept.
pub open spec fn cleaned_list(values: Seq<Seq<char>>) -> Seq<Seq<char>>
    decreases values.len(),
{
    if values.len() == 0 {
        Seq::empty()
    } else {
        let before = cleaned_list(values.drop_last());
        let t = crate::text::trimmed(values.last());
        if before.len() >= MAX_ITEMS || t.len() == 0 || holds_ignoring_case(before, t) {
            before
        } else {
            before.push(t)
        }
    }
}

/// Whether `status` is one that an action item may have.
pub open spec fn supported_status(status: Seq<char>) -> bool {
    status == "open"@ || status == "in_progress"@ || status == "done"@ || status == "blocked"@
}

/// An action item after cleaning: its texts are trimmed, a blank owner or due
/// date is dropped, and a status that is not supported becomes `open`.
pub open spec fn cleaned_action(item: ActionItemView) -> ActionItemView {
    ActionItemView {
        content: crate::text::trimmed(item.content),
        owner: crate::text::cleaned(item.owner),
        due_date: crate::text::cleaned(item.due_date),
        status: if supported_status(crate::text::trimmed(item.status)) {
            crate::text::trimmed(item.status)
        } else {
            "open"@
        },
    }
}

/// What the action items say.
pub open spec fn contents(items: Seq<ActionItemView>) -> Seq<Seq<char>> {
    items.map_values(|item: ActionItemView| item.content)
}

/// A list of action items after cleaning, by the same rules for their contents
/// as in [`cleaned_list`].
pub open spec fn cleaned_actions(items: Seq<ActionItemView>) -> Seq<ActionItemView>
    decreases items.len(),
{
    if items.len() == 0 {
        Seq::empty()
    } else {
        let before = cleaned_actions(items.drop_last());
        let item = cleaned_action(items.last());
        if before.len() >= MAX_ITEMS || item.content.len() == 0 || holds_ignoring_case(
            contents(before),
            item.content,
        ) {
            before
        } else {
            before.push(item)
        }
    }
}

/// A document after cleaning.
pub open spec fn cleaned_summary(document: SummaryView) -> SummaryView {
    SummaryView {
        topics: cleaned_list(document.topics),
        decisions: cleaned_list(document.decisions),
        action_items: cleaned_actions(document.action_items),
        open_questions: cleaned_list(document.open_questions),
        risks: cleaned_list(document.risks),
        key_points: cleaned_list(document.key_points),
    }
}

fn list_holds_ignoring_case(list: &Vec<String>, t: &str) -> (held: bool)
    ensures
        held == holds_ignoring_case(texts(list@), t@),
{
    let mut i: usize = 0;
    while i < list.len()
        invariant
            i <= list@.len(),
            forall|j: int|
                0 <= j < i ==> crate::text::ascii_folded(#[trigger] texts(list@)[j])
                    != crate::text::ascii_folded(t@),
        decreases list@.len() - i,
    {
        assert(texts(list@)[i as int] == list@[i as int]@);
        if eq_ignore_ascii_case(list[i].as_str(), t) {
            return true;
        }
        i += 1;
    }
    false
}

fn actions_hold_ignoring_case(list: &Vec<ActionItem>, t: &str) -> (held: bool)
    ensures
        held == holds_ignoring_case(contents(actions(list@)), t@),
{
    let ghost all = contents(actions(list@));
    let mut i: usize = 0;
    while i < list.len()
        invariant
            i <= list@.len(),
            all == contents(actions(list@)),
            forall|j: int|
                0 <= j < i ==> crate::text::ascii_folded(#[trigger] all[j])
                    != crate::text::ascii_folded(t@),
        decreases list@.len() - i,
    {
        assert(all[i as int] == list@[i as int].content@);
        if eq_ignore_ascii_case(list[i].content.as_str(), t) {
            return true;
        }
        i += 1;
    }
    false
}

proof fn lemma_full_list_stays(values: Seq<Seq<char>>, i: int)
    requires
        0 <= i <= values.len(),
        cleaned_list(values.take(i)).len() >= MAX_ITEMS,
    ensures
        cleaned_list(values) == cleaned_list(values.take(i)),
    decreases values.len() - i,
{
    if i < values.len() {
        assert(values.take(i + 1).drop_last() == values.take(i));
        lemma_full_list_stays(values, i + 1);
    } else {
        assert(values.take(i) == values);
    }
}

proof fn lemma_full_actions_stay(items: Seq<ActionItemView>, i: int)
    requires
        0 <= i <= items.len(),
        cleaned_actions(items.take(i)).len() >= MAX_ITEMS,
    ensures
        cleaned_actions(items) == cleaned_actions(items.take(i)),
    decreases items.len() - i,
{
    if i < items.len() {
        assert(items.take(i + 1).drop_last() == items.take(i));
        lemma_full_actions_stay(items, i + 1);
    } else {
        assert(items.take(i) == items);
    }
}

/// Cleans a list of texts.
pub fn normalize_list(values: Vec<String>) -> (kept: Vec<String>)
    ensures
        texts(kept@) == cleaned_list(texts(values@)),
{
    let ghost all = texts(values@);
    let mut kept: Vec<String> = Vec::new();
    let mut i: usize = 0;
    assert(texts(kept@) =~= cleaned_list(all.take(0)));
    while i < values.len() && kept.len() < MAX_ITEMS
        invariant
            i <= values@.len(),
            all == texts(values@),
            texts(kept@) == cleaned_list(all.take(i as int)),
        decreases values@.len() - i,
    {
        let value = trim(values[i].as_str());
        let ghost before = texts(kept@);
        proof {
            assert(all.take(i + 1).drop_last() == all.take(i as int));
            assert(all.take(i + 1).last() == values@[i as int]@);
        }
        if !value.as_str().is_empty() && !list_holds_ignoring_case(&kept, value.as_str()) {
            kept.push(value);
            assert(texts(kept@) =~= before.push(value@));
        }
        i += 1;
    }
    proof {
        if i == values@.len() {
            assert(all.take(i as int) == all);
        } else {
            lemma_full_list_stays(all, i as int);
        }
    }
    kept
}

fn clean_action(item: ActionItem) -> (clean: ActionItem)
    ensures
        clean@ == cleaned_action(item@),
{
    let status = trim(item.status.as_str());
    let status = if text_eq(status.as_str(), "open") || text_eq(status.as_str(), "in_progress")
        || text_eq(status.as_str(), "done") || text_eq(status.as_str(), "blocked") {
        status
    } else {
        default_action_status()
    };
    ActionItem {
        content: trim(item.content.as_str()),
        owner: clean_option(item.owner),
        due_date: clean_option(item.due_date),
        status,
    }
}

fn normalize_actions(items: Vec<ActionItem>) -> (kept: Vec<ActionItem>)
    ensures
        actions(kept@) == cleaned_actions(actions(items@)),
{
    let ghost all = actions(items@);
    let mut kept: Vec<ActionItem> = Vec::new();
    assert(actions(kept@) =~= cleaned_actions(all.take(0)));
    for item in it: items
        invariant
            it.seq() == items@,
            all == actions(items@),
            actions(kept@) == cleaned_actions(all.take(it.index() as int)),
    {
        let ghost i = it.index() as int;
        let ghost before = actions(kept@);
        proof {
            assert(all.take(i + 1).drop_last() == all.take(i));
            assert(all.take(i + 1).last() == item@);
        }
        if kept.len() < MAX_ITEMS {
            let clean = clean_action(item);
            if !clean.content.as_str().is_empty() && !actions_hold_ignoring_case(
                &kept,
                clean.content.as_str(),
            ) {
                kept.push(clean);
                assert(actions(kept@) =~= before.push(clean@));
            }
        }
    }
    assert(all.take(all.len() as int) == all);
    kept
}

/// Cleans a document: trims its texts, drops what is blank or repeated, and
/// replaces what is not a supported status.
pub fn normalize_summary(summary: SummaryDocument) -> (clean: SummaryDocument)
    ensures
        clean@ == cleaned_summary(summary@),
{
    SummaryDocument {
        topics: normalize_list(summary.topics),
        decisions: normalize_list(summary.decisions),
        action_items: normalize_actions(summary.action_items),
        open_questions: normalize_list(summary.open_questions),
        risks: normalize_list(summary.risks),
        key_points: normalize_list(summary.key_points),
    }
}

/// Whether a list of texts is clean: no text is blank or has white space at an
/// end, no two differ at most in the case of ASCII letters, and there are at
/// most a hundred.
pub open spec fn is_clean_list(list: Seq<Seq<char>>) -> bool {
    &&& list.len() <= MAX_ITEMS
    &&& forall|i: int|
        0 <= i < list.len() ==> (#[trigger] list[i]).len() > 0 && crate::text::trimmed(list[i])
            == list[i]
    &&& forall|i: int, j: int|
        0 <= i < j < list.len() ==> crate::text::ascii_folded(#[trigger] list[i])
            != crate::text::ascii_folded(#[trigger] list[j])
}

/// Whether a list of action items is clean.
pub open spec fn is_clean_actions(items: Seq<ActionItemView>) -> bool {
    &&& is_clean_list(contents(items))
    &&& forall|i: int|
        0 <= i < items.len() ==> supported_status((#[trigger] items[i]).status) && crate::text::cleaned(
            items[i].owner,
        ) == items[i].owner && crate::text::cleaned(items[i].due_date) == items[i].due_date
}

/// Cleaning makes a list clean.
pub proof fn law_cleaned_list_is_clean(values: Seq<Seq<char>>)
    ensures
        is_clean_list(cleaned_list(values)),
    decreases values.len(),
{
    if values.len() > 0 {
        law_cleaned_list_is_clean(values.drop_last());
        crate::text::law_trimmed_is_idempotent(values.last());
    }
}

/// Cleaning a clean list changes nothing.
pub proof fn law_clean_list_stays(list: Seq<Seq<char>>)
    requires
        is_clean_list(list),
    ensures
        cleaned_list(list) == list,
    decreases list.len(),
{
    if list.len() > 0 {
        let before = list.drop_last();
        assert forall|i: int, j: int| 0 <= i < j < before.len() implies crate::text::ascii_folded(
            #[trigger] before[i],
        ) != crate::text::ascii_folded(#[trigger] before[j]) by {
            assert(before[i] == list[i] && before[j] == list[j]);
        }
        assert forall|i: int| 0 <= i < before.len() implies (#[trigger] before[i]).len() > 0
            && crate::text::trimmed(before[i]) == before[i] by {
            assert(before[i] == list[i]);
        }
        law_clean_list_stays(before);
        assert(!holds_ignoring_case(before, list.last())) by {
            if holds_ignoring_case(before, list.last()) {
                let i = choose|i: int|
                    0 <= i < before.len() && crate::text::ascii_folded(#[trigger] before[i])
                        == crate::text::ascii_folded(list.last());
                assert(list[i] == before[i]);
                assert(list[list.len() - 1] == list.last());
            }
        }
        assert(crate::text::trimmed(list[list.len() - 1]) == list[list.len() - 1]);
        assert(before.push(list.last()) == list);
    }
}

/// Cleaning keeps every text: each that is not blank is in the cleaned list, up
/// to white space at its ends and the case of ASCII letters, as long as the list
/// is not full.
pub proof fn law_cleaning_keeps_texts(values: Seq<Seq<char>>, i: int)
    requires
        0 <= i < values.len(),
        crate::text::trimmed(values[i]).len() > 0,
        cleaned_list(values).len() < MAX_ITEMS,
    ensures
        holds_ignoring_case(cleaned_list(values), crate::text::trimmed(values[i])),
    decreases values.len(),
{
    let before = cleaned_list(values.drop_last());
    let after = cleaned_list(values);
    if i < values.len() - 1 {
        law_cleaning_keeps_texts(values.drop_last(), i);
        let k = choose|k: int|
            0 <= k < before.len() && crate::text::ascii_folded(#[trigger] before[k])
                == crate::text::ascii_folded(crate::text::trimmed(values[i]));
        assert(after[k] == before[k]);
    } else if !holds_ignoring_case(before, crate::text::trimmed(values[i])) {
        assert(after[after.len() - 1] == crate::text::trimmed(values[i]));
    }
}

/// A text of the cleaned list is one of the given texts, trimmed.
pub proof fn law_cleaning_invents_nothing(values: Seq<Seq<char>>, k: int)
    requires
        0 <= k < cleaned_list(values).len(),
    ensures
        exists|i: int|
            0 <= i < values.len() && crate::text::trimmed(#[trigger] values[i]) == cleaned_list(
                values,
            )[k],
    decreases values.len(),
{
    let before = cleaned_list(values.drop_last());
    if k < before.len() {
        law_cleaning_invents_nothing(values.drop_last(), k);
        let i = choose|i: int|
            0 <= i < values.drop_last().len() && crate::text::trimmed(
                #[trigger] values.drop_last()[i],
            ) == before[k];
        assert(values[i] == values.drop_last()[i]);
    } else {
        assert(values[values.len() - 1] == values.last());
    }
}

proof fn lemma_cleaned_option_stays(t: Option<Seq<char>>)
    ensures
        crate::text::cleaned(crate::text::cleaned(t)) == crate::text::cleaned(t),
{
    if let Some(s) = t {
        crate::text::law_trimmed_is_idempotent(s);
    }
}

/// Cleaning makes a list of action items clean.
pub proof fn law_cleaned_actions_are_clean(items: Seq<ActionItemView>)
    ensures
        is_clean_actions(cleaned_actions(items)),
    decreases items.len(),
{
    if items.len() > 0 {
        let before = cleaned_actions(items.drop_last());
        let item = cleaned_action(items.last());
        law_cleaned_actions_are_clean(items.drop_last());
        crate::text::law_trimmed_is_idempotent(items.last().content);
        lemma_cleaned_option_stays(items.last().owner);
        lemma_cleaned_option_stays(items.last().due_date);
        assert(contents(before.push(item)) =~= contents(before).push(item.content));
    } else {
        assert(contents(cleaned_actions(items)) =~= Seq::empty());
    }
}

proof fn lemma_supported_status_is_trimmed(status: Seq<char>)
    requires
        supported_status(status),
    ensures
        crate::text::trimmed(status) == status,
{
    reveal_strlit("open");
    reveal_strlit("in_progress");
    reveal_strlit("done");
    reveal_strlit("blocked");
    assert(status.len() > 0);
    assert(!crate::text::white_space(status[0]));
    assert(!crate::text::white_space(status.last()));
}

/// Cleaning a clean list of action items changes nothing.
pub proof fn law_clean_actions_stay(items: Seq<ActionItemView>)
    requires
        is_clean_actions(items),
    ensures
        cleaned_actions(items) == items,
    decreases items.len(),
{
    if items.len() > 0 {
        let before = items.drop_last();
        let last = items.last();
        let texts = contents(items);
        let before_texts = contents(before);
        assert(texts =~= before_texts.push(last.content));
        assert forall|i: int, j: int| 0 <= i < j < before_texts.len() implies crate::text::ascii_folded(
            #[trigger] before_texts[i],
        ) != crate::text::ascii_folded(#[trigger] before_texts[j]) by {
            assert(before_texts[i] == texts[i] && before_texts[j] == texts[j]);
        }
        assert forall|i: int| 0 <= i < before_texts.len() implies (#[trigger] before_texts[i]).len()
            > 0 && crate::text::trimmed(before_texts[i]) == before_texts[i] by {
            assert(before_texts[i] == texts[i]);
        }
        assert forall|i: int| 0 <= i < before.len() implies supported_status(
            (#[trigger] before[i]).status,
        ) && crate::text::cleaned(before[i].owner) == before[i].owner && crate::text::cleaned(
            before[i].due_date,
        ) == before[i].due_date by {
            assert(before[i] == items[i]);
        }
        law_clean_actions_stay(before);
        assert(items[items.len() - 1] == last);
        assert(texts[items.len() - 1] == last.content);
        lemma_supported_status_is_trimmed(last.status);
        assert(cleaned_action(last) == last);
        assert(!holds_ignoring_case(before_texts, last.content)) by {
            if holds_ignoring_case(before_texts, last.content) {
                let i = choose|i: int|
                    0 <= i < before_texts.len() && crate::text::ascii_folded(
                        #[trigger] before_texts[i],
                    ) == crate::text::ascii_folded(last.content);
                assert(texts[i] == before_texts[i]);
            }
        }
        assert(before.push(last) == items);
    }
}

/// Cleaning a document a second time changes nothing.
pub proof fn law_cleaning_is_idempotent(document: SummaryView)
    ensures
        cleaned_summary(cleaned_summary(document)) == cleaned_summary(document),
{
    let once = cleaned_summary(document);
    law_cleaned_list_is_clean(document.topics);
    law_cleaned_list_is_clean(document.decisions);
    law_cleaned_list_is_clean(document.open_questions);
    law_cleaned_list_is_clean(document.risks);
    law_cleaned_list_is_clean(document.key_points);
    law_cleaned_actions_are_clean(document.action_items);
    law_clean_list_stays(once.topics);
    law_clean_list_stays(once.decisions);
    law_clean_list_stays(once.open_questions);
    law_clean_list_stays(once.risks);
    law_clean_list_stays(once.key_points);
    law_clean_actions_stay(once.action_items);
}

/// Whether these are places in a list of so many items, each behind the one before.
pub open spec fn places_rise(from: Seq<int>, n: nat) -> bool {
    &&& forall|i: int| 0 <= i < from.len() ==> 0 <= #[trigger] from[i] < n
    &&& forall|i: int, j: int|
        0 <= i < j < from.len() ==> #[trigger] from[i] < #[trigger] from[j]
}

/// Whether a list of texts is what cleaning may leave of the given ones: it holds, each
/// trimmed and in order, the first of those that differ at most in the case of ASCII
/// letters, and none that is blank; it ends only where a hundred are held or no other
/// text is left.
pub open spec fn is_cleaned_from(given: Seq<Seq<char>>, kept: Seq<Seq<char>>) -> bool {
    &&& kept.len() <= 100
    &&& exists|from: Seq<int>|
        {
            &&& #[trigger] places_rise(from, given.len())
            &&& from.len() == kept.len()
            &&& forall|k: int|
                0 <= k < kept.len() ==> #[trigger] kept[k] == crate::text::trimmed(
                    given[from[k]],
                ) && kept[k].len() > 0
            &&& forall|i: int, k: int|
                0 <= k < kept.len() && 0 <= i < from[k] ==> crate::text::ascii_folded(
                    crate::text::trimmed(#[trigger] given[i]),
                ) != crate::text::ascii_folded(#[trigger] kept[k])
            &&& forall|i: int|
                0 <= i < given.len() && crate::text::trimmed(#[trigger] given[i]).len() > 0
                    ==> holds_ignoring_case(kept, crate::text::trimmed(given[i])) || (kept.len()
                    == 100 && from[99] < i)
        }
}

proof fn lemma_cleaned_from(given: Seq<Seq<char>>) -> (from: Seq<int>)
    ensures
        ({
            let kept = cleaned_list(given);
            &&& kept.len() <= 100
            &&& places_rise(from, given.len())
            &&& from.len() == kept.len()
            &&& forall|k: int|
                0 <= k < kept.len() ==> #[trigger] kept[k] == crate::text::trimmed(
                    given[from[k]],
                ) && kept[k].len() > 0
            &&& forall|i: int, k: int|
                0 <= k < kept.len() && 0 <= i < from[k] ==> crate::text::ascii_folded(
                    crate::text::trimmed(#[trigger] given[i]),
                ) != crate::text::ascii_folded(#[trigger] kept[k])
            &&& forall|i: int|
                0 <= i < given.len() && crate::text::trimmed(#[trigger] given[i]).len() > 0
                    ==> holds_ignoring_case(kept, crate::text::trimmed(given[i])) || (kept.len()
                    == 100 && from[99] < i)
        }),
    decreases given.len(),
{
    if given.len() == 0 {
        Seq::empty()
    } else {
        let front = given.drop_last();
        let before = cleaned_list(front);
        let from = lemma_cleaned_from(front);
        let kept = cleaned_list(given);
        let last = (given.len() - 1) as int;
        let t = crate::text::trimmed(given.last());
        assert forall|i: int| 0 <= i < front.len() implies front[i] == #[trigger] given[i] by {}
        let all = if before.len() >= MAX_ITEMS || t.len() == 0 || holds_ignoring_case(before, t) {
            from
        } else {
            from.push(last)
        };
        assert forall|k: int| 0 <= k < before.len() implies kept[k] == #[trigger] before[k]
            && all[k] == from[k] by {}
        assert forall|k: int| 0 <= k < kept.len() implies #[trigger] kept[k] == crate::text::trimmed(
            given[all[k]],
        ) && kept[k].len() > 0 by {
            if k < before.len() {
                assert(before[k] == crate::text::trimmed(front[from[k]]));
            }
        }
        assert forall|i: int, k: int|
            0 <= k < kept.len() && 0 <= i < all[k] implies crate::text::ascii_folded(
            crate::text::trimmed(#[trigger] given[i]),
        ) != crate::text::ascii_folded(#[trigger] kept[k]) by {
            if k < before.len() {
                assert(front[i] == given[i]);
                assert(before[k] == kept[k]);
            } else {
                assert(front[i] == given[i]);
                let u = crate::text::trimmed(front[i]);
                if crate::text::ascii_folded(u) == crate::text::ascii_folded(t) {
                    if u.len() == 0 {
                        assert(crate::text::ascii_folded(u).len() == 0);
                        assert(crate::text::ascii_folded(t).len() == t.len());
                    } else {
                        assert(holds_ignoring_case(before, u));
                        let j = choose|j: int|
                            0 <= j < before.len() && crate::text::ascii_folded(
                                #[trigger] before[j],
                            ) == crate::text::ascii_folded(u);
                        assert(holds_ignoring_case(before, t));
                    }
                }
            }
        }
        assert forall|i: int|
            0 <= i < given.len() && crate::text::trimmed(
                #[trigger] given[i],
            ).len() > 0 implies holds_ignoring_case(kept, crate::text::trimmed(given[i])) || (
        kept.len() == 100 && all[99] < i) by {
            let u = crate::text::trimmed(given[i]);
            if i < last {
                assert(front[i] == given[i]);
                if holds_ignoring_case(before, u) {
                    let j = choose|j: int|
                        0 <= j < before.len() && crate::text::ascii_folded(#[trigger] before[j])
                            == crate::text::ascii_folded(u);
                    assert(kept[j] == before[j]);
                }
            } else if holds_ignoring_case(before, t) {
                let j = choose|j: int|
                    0 <= j < before.len() && crate::text::ascii_folded(#[trigger] before[j])
                        == crate::text::ascii_folded(t);
                assert(kept[j] == before[j]);
            } else if before.len() < MAX_ITEMS {
                assert(kept[before.len() as int] == t);
            } else {
                assert(from[99] < front.len());
            }
        }
        all
    }
}

/// Cleaning a list leaves, in order, every text that is not blank and was not there
/// before, trimmed, up to a hundred of them.
pub proof fn law_list_is_cleaned_from_the_given(given: Seq<Seq<char>>)
    ensures
        is_cleaned_from(given, cleaned_list(given)),
{
    let from = lemma_cleaned_from(given);
    assert(places_rise(from, given.len()));
}

/// Whether one action item is another after cleaning: its content trimmed, its owner and
/// its date trimmed where they are not blank and absent where they are, and its status
/// kept where it is one of the four and `open` where it is not.
pub open spec fn is_cleaned_item(given: ActionItemView, kept: ActionItemView) -> bool {
    let status = crate::text::trimmed(given.status);
    &&& kept.content == crate::text::trimmed(given.content)
    &&& kept.owner == match given.owner {
        Some(t) => if crate::text::trimmed(t).len() == 0 {
            None
        } else {
            Some(crate::text::trimmed(t))
        },
        None => None,
    }
    &&& kept.due_date == match given.due_date {
        Some(t) => if crate::text::trimmed(t).len() == 0 {
            None
        } else {
            Some(crate::text::trimmed(t))
        },
        None => None,
    }
    &&& kept.status == if status == "open"@ || status == "in_progress"@ || status == "done"@
        || status == "blocked"@ {
        status
    } else {
        "open"@
    }
}

/// Whether a list of action items is what cleaning may leave of the given ones: it holds,
/// each cleaned and in order, the first of those whose contents differ at most in the
/// case of ASCII letters, and none whose content is blank; it ends only where a hundred
/// are held or no other item is left.
pub open spec fn are_cleaned_from(given: Seq<ActionItemView>, kept: Seq<ActionItemView>) -> bool {
    &&& kept.len() <= 100
    &&& exists|from: Seq<int>|
        {
            &&& #[trigger] places_rise(from, given.len())
            &&& from.len() == kept.len()
            &&& forall|k: int|
                0 <= k < kept.len() ==> is_cleaned_item(given[from[k]], #[trigger] kept[k])
                    && kept[k].content.len() > 0
            &&& forall|i: int, k: int|
                0 <= k < kept.len() && 0 <= i < from[k] ==> crate::text::ascii_folded(
                    crate::text::trimmed((#[trigger] given[i]).content),
                ) != crate::text::ascii_folded((#[trigger] kept[k]).content)
            &&& forall|i: int|
                0 <= i < given.len() && crate::text::trimmed((#[trigger] given[i]).content).len()
                    > 0 ==> (exists|k: int|
                    0 <= k < kept.len() && crate::text::ascii_folded((#[trigger] kept[k]).content)
                        == crate::text::ascii_folded(crate::text::trimmed(given[i].content))) || (
                kept.len() == 100 && from[99] < i)
        }
}

proof fn lemma_actions_cleaned_from(given: Seq<ActionItemView>) -> (from: Seq<int>)
    ensures
        ({
            let kept = cleaned_actions(given);
            &&& kept.len() <= 100
            &&& places_rise(from, given.len())
            &&& from.len() == kept.len()
            &&& forall|k: int|
                0 <= k < kept.len() ==> is_cleaned_item(given[from[k]], #[trigger] kept[k])
                    && kept[k].content.len() > 0
            &&& forall|i: int, k: int|
                0 <= k < kept.len() && 0 <= i < from[k] ==> crate::text::ascii_folded(
                    crate::text::trimmed((#[trigger] given[i]).content),
                ) != crate::text::ascii_folded((#[trigger] kept[k]).content)
            &&& forall|i: int|
                0 <= i < given.len() && crate::text::trimmed((#[trigger] given[i]).content).len()
                    > 0 ==> (exists|k: int|
                    0 <= k < kept.len() && crate::text::ascii_folded((#[trigger] kept[k]).content)
                        == crate::text::ascii_folded(crate::text::trimmed(given[i].content))) || (
                kept.len() == 100 && from[99] < i)
        }),
    decreases given.len(),
{
    if given.len() == 0 {
        Seq::empty()
    } else {
        let front = given.drop_last();
        let before = cleaned_actions(front);
        let from = lemma_actions_cleaned_from(front);
        let kept = cleaned_actions(given);
        let last = (given.len() - 1) as int;
        let t = crate::text::trimmed(given.last().content);
        let added = before.len() < MAX_ITEMS && t.len() > 0 && !holds_ignoring_case(
            contents(before),
            t,
        );
        assert forall|i: int| 0 <= i < front.len() implies front[i] == #[trigger] given[i] by {}
        let all = if added {
            from.push(last)
        } else {
            from
        };
        assert forall|k: int| 0 <= k < before.len() implies kept[k] == #[trigger] before[k]
            && all[k] == from[k] && contents(before)[k] == before[k].content by {}
        if added {
            assert(kept[before.len() as int] == cleaned_action(given.last()));
        }
        assert forall|k: int| 0 <= k < kept.len() implies is_cleaned_item(
            given[all[k]],
            #[trigger] kept[k],
        ) && kept[k].content.len() > 0 by {
            if k < before.len() {
                assert(is_cleaned_item(front[from[k]], before[k]));
            }
        }
        assert forall|i: int, k: int|
            0 <= k < kept.len() && 0 <= i < all[k] implies crate::text::ascii_folded(
            crate::text::trimmed((#[trigger] given[i]).content),
        ) != crate::text::ascii_folded((#[trigger] kept[k]).content) by {
            assert(front[i] == given[i]);
            if k < before.len() {
                assert(before[k] == kept[k]);
            } else {
                let u = crate::text::trimmed(front[i].content);
                if crate::text::ascii_folded(u) == crate::text::ascii_folded(t) {
                    if u.len() == 0 {
                        assert(crate::text::ascii_folded(u).len() == 0);
                        assert(crate::text::ascii_folded(t).len() == t.len());
                    } else {
                        let j = choose|j: int|
                            0 <= j < before.len() && crate::text::ascii_folded(
                                (#[trigger] before[j]).content,
                            ) == crate::text::ascii_folded(u);
                        assert(contents(before)[j] == before[j].content);
                        assert(holds_ignoring_case(contents(before), t));
                    }
                }
            }
        }
        assert forall|i: int|
            0 <= i < given.len() && crate::text::trimmed((#[trigger] given[i]).content).len()
                > 0 implies (exists|k: int|
            0 <= k < kept.len() && crate::text::ascii_folded((#[trigger] kept[k]).content)
                == crate::text::ascii_folded(crate::text::trimmed(given[i].content))) || (
        kept.len() == 100 && all[99] < i) by {
            let u = crate::text::trimmed(given[i].content);
            if i < last {
                assert(front[i] == given[i]);
                if exists|k: int|
                    0 <= k < before.len() && crate::text::ascii_folded(
                        (#[trigger] before[k]).content,
                    ) == crate::text::ascii_folded(u) {
                    let j = choose|j: int|
                        0 <= j < before.len() && crate::text::ascii_folded(
                            (#[trigger] before[j]).content,
                        ) == crate::text::ascii_folded(u);
                    assert(kept[j] == before[j]);
                }
            } else if holds_ignoring_case(contents(before), t) {
                let j = choose|j: int|
                    0 <= j < contents(before).len() && crate::text::ascii_folded(
                        #[trigger] contents(before)[j],
                    ) == crate::text::ascii_folded(t);
                assert(kept[j] == before[j]);
            } else if before.len() < MAX_ITEMS {
                assert(kept[before.len() as int].content == t);
            } else {
                assert(from[99] < front.len());
            }
        }
        all
    }
}

/// Cleaning a list of action items leaves, in order, every one whose content is not blank
/// and was not there before, each with its own fields, cleaned, up to a hundred of them.
pub proof fn law_actions_are_cleaned_from_the_given(given: Seq<ActionItemView>)
    ensures
        are_cleaned_from(given, cleaned_actions(given)),
{
    let from = lemma_actions_cleaned_from(given);
    assert(places_rise(from, given.len()));
}

/// A cleaned document has in each of its lists what the given document has in that same
/// list: every text that is not blank, trimmed, in order, but for repetitions and for
/// what goes beyond a hundred, and nothing else.
pub proof fn law_document_is_cleaned_list_by_list(document: SummaryView)
    ensures
        is_cleaned_from(document.topics, cleaned_summary(document).topics),
        is_cleaned_from(document.decisions, cleaned_summary(document).decisions),
        is_cleaned_from(document.open_questions, cleaned_summary(document).open_questions),
        is_cleaned_from(document.risks, cleaned_summary(document).risks),
        is_cleaned_from(document.key_points, cleaned_summary(document).key_points),
        are_cleaned_from(document.action_items, cleaned_summary(document).action_items),
{
    law_list_is_cleaned_from_the_given(document.topics);
    law_list_is_cleaned_from_the_given(document.decisions);
    law_list_is_cleaned_from_the_given(document.open_questions);
    law_list_is_cleaned_from_the_given(document.risks);
    law_list_is_cleaned_from_the_given(document.key_points);
    law_actions_are_cleaned_from_the_given(document.action_items);
}

/// No list of a document loses a text: each that is not blank is in the same list of the
/// cleaned document, up to white space at its ends and the case of ASCII letters, as long
/// as that list is not full.
pub proof fn law_document_keeps_its_texts(document: SummaryView, i: int)
    ensures
        ({
            let clean = cleaned_summary(document);
            &&& 0 <= i < document.topics.len() && crate::text::trimmed(document.topics[i]).len() > 0
                && clean.topics.len() < 100 ==> holds_ignoring_case(
                clean.topics,
                crate::text::trimmed(document.topics[i]),
            )
            &&& 0 <= i < document.decisions.len() && crate::text::trimmed(
                document.decisions[i],
            ).len() > 0 && clean.decisions.len() < 100 ==> holds_ignoring_case(
                clean.decisions,
                crate::text::trimmed(document.decisions[i]),
            )
            &&& 0 <= i < document.open_questions.len() && crate::text::trimmed(
                document.open_questions[i],
            ).len() > 0 && clean.open_questions.len() < 100 ==> holds_ignoring_case(
                clean.open_questions,
                crate::text::trimmed(document.open_questions[i]),
            )
            &&& 0 <= i < document.risks.len() && crate::text::trimmed(document.risks[i]).len() > 0
                && clean.risks.len() < 100 ==> holds_ignoring_case(
                clean.risks,
                crate::text::trimmed(document.risks[i]),
            )
            &&& 0 <= i < document.key_points.len() && crate::text::trimmed(
                document.key_points[i],
            ).len() > 0 && clean.key_points.len() < 100 ==> holds_ignoring_case(
                clean.key_points,
                crate::text::trimmed(document.key_points[i]),
            )
        }),
{
    let clean = cleaned_summary(document);
    if 0 <= i < document.topics.len() && crate::text::trimmed(document.topics[i]).len() > 0
        && clean.topics.len() < 100 {
        law_cleaning_keeps_texts(document.topics, i);
    }
    if 0 <= i < document.decisions.len() && crate::text::trimmed(document.decisions[i]).len() > 0
        && clean.decisions.len() < 100 {
        law_cleaning_keeps_texts(document.decisions, i);
    }
    if 0 <= i < document.open_questions.len() && crate::text::trimmed(
        document.open_questions[i],
    ).len() > 0 && clean.open_questions.len() < 100 {
        law_cleaning_keeps_texts(document.open_questions, i);
    }
    if 0 <= i < document.risks.len() && crate::text::trimmed(document.risks[i]).len() > 0
        && clean.risks.len() < 100 {
        law_cleaning_keeps_texts(document.risks, i);
    }
    if 0 <= i < document.key_points.len() && crate::text::trimmed(document.key_points[i]).len() > 0
        && clean.key_points.len() < 100 {
        law_cleaning_keeps_texts(document.key_points, i);
    }
}

/// A document whose lists are all clean already stays as it is.
pub proof fn law_clean_document_stays(document: SummaryView)
    requires
        is_clean_list(document.topics),
        is_clean_list(document.decisions),
        is_clean_list(document.open_questions),
        is_clean_list(document.risks),
        is_clean_list(document.key_points),
        is_clean_actions(document.action_items),
    ensures
        cleaned_summary(document) == document,
{
    law_clean_list_stays(document.topics);
    law_clean_list_stays(document.decisions);
    law_clean_list_stays(document.open_questions);
    law_clean_list_stays(document.risks);
    law_clean_list_stays(document.key_points);
    law_clean_actions_stay(document.action_items);
}

/// The characters at which a transcript is cut into key points.
pub open spec fn sentence_ends() -> Seq<char> {
    seq!['。', '.', '\n']
}

/// The summary that is made without a language model: each sentence or line of
/// the transcript is a key point.
pub open spec fn local_summary(transcript: Seq<char>) -> SummaryView {
    SummaryView {
        key_points: crate::text::trimmed_pieces(transcript, sentence_ends()),
        ..empty_summary()
    }
}

/// Summarizes a transcript without a language model.
pub fn summarize_locally(transcript: &str) -> (document: SummaryDocument)
    ensures
        document@ == local_summary(transcript@),
{
    let mut ends: Vec<char> = Vec::new();
    ends.push('。');
    ends.push('.');
    ends.push('\n');
    assert(ends@ =~= sentence_ends());
    let mut document = SummaryDocument::default();
    document.key_points = split_trimmed(transcript, &ends);
    document
}

/// A summary that is made without a language model holds what was said as key points and
/// nothing else: each sentence or line of the transcript that is not blank, trimmed, is
/// one of them, and each of them is such a sentence or line.
pub proof fn law_local_summary_is_what_was_said(transcript: Seq<char>)
    ensures
        ({
            let document = local_summary(transcript);
            let pieces = crate::text::split_on(transcript, seq!['。', '.', '\n']);
            &&& document.topics.len() == 0
            &&& document.decisions.len() == 0
            &&& document.action_items.len() == 0
            &&& document.open_questions.len() == 0
            &&& document.risks.len() == 0
            &&& forall|i: int|
                0 <= i < pieces.len() && crate::text::trimmed(#[trigger] pieces[i]).len() > 0
                    ==> document.key_points.contains(crate::text::trimmed(pieces[i]))
            &&& forall|i: int|
                0 <= i < document.key_points.len() ==> (#[trigger] document.key_points[i]).len() > 0
                    && exists|k: int|
                    0 <= k < pieces.len() && crate::text::trimmed(#[trigger] pieces[k])
                        == document.key_points[i]
        }),
{
    crate::text::law_trimmed_pieces(transcript, sentence_ends());
}

} // verus!
