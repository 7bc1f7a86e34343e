//! The speakers of a meeting.
use vstd::prelude::*;

use crate::error::{
    bad_request, broken_reference, key_taken, outcome, reference_broken, taken_key, AppError,
    AppErrorView,
};
use crate::events::no_members;
use crate::ids::{is_id, new_id};
use crate::jobs::{came_out, or_unchanged};
use crate::json::{string_json, Json, JsonView};
use crate::meetings::answered;
use crate::rows::{any, any_row, find_row, first, json_of_rows, select_rows};
use crate::soundness::{law_sound_after_ensure_speaker, sound, speaker_id};
use crate::store::{
    meeting_is, speaker_is, speaker_named, Speaker, SpeakerView, Store, StoreView,
};
use crate::text::{text_eq, trim, trimmed};

verus! {

/// The store with a new speaker of a meeting.
pub open spec fn speaker_created(
    s: StoreView,
    meeting_id: Seq<char>,
    name: Seq<char>,
    id: Seq<char>,
) -> Result<StoreView, AppErrorView> {
    if !s.has_meeting(meeting_id) {
        Err(AppErrorView::NotFound)
    } else if trimmed(name).len() == 0 {
        Err(AppErrorView::BadRequest("name is required"@))
    } else if any(s.speakers, speaker_is(id)) {
        Err(key_taken("speakers.id"@))
    } else {
        Ok(
            StoreView {
                speakers: s.speakers.push(SpeakerView { id, meeting_id, name: trimmed(name) }),
                ..s
            },
        )
    }
}

/// The speaker of a meeting with a name, and the store in which there is one: the
/// first of that name, or a new one.
pub open spec fn speaker_ensured(
    s: StoreView,
    meeting_id: Seq<char>,
    name: Seq<char>,
    id: Seq<char>,
) -> Result<(StoreView, Seq<char>), AppErrorView> {
    match first(s.speakers, speaker_named(meeting_id, name)) {
        Some(speaker) => Ok((s, speaker.id)),
        None => if any(s.speakers, speaker_is(id)) {
            Err(key_taken("speakers.id"@))
        } else if !s.has_meeting(meeting_id) {
            Err(reference_broken())
        } else {
            Ok(
                (
                    StoreView {
                        speakers: s.speakers.push(SpeakerView { id, meeting_id, name }),
                        ..s
                    },
                    id,
                ),
            )
        },
    }
}

/// What is left of the store when a speaker was asked for.
pub open spec fn store_of(r: Result<(StoreView, Seq<char>), AppErrorView>, s: StoreView) -> StoreView {
    match r {
        Ok((new, _)) => new,
        Err(_) => s,
    }
}

/// Which speaker was given.
pub open spec fn id_of(r: Result<(StoreView, Seq<char>), AppErrorView>) -> Result<
    Seq<char>,
    AppErrorView,
> {
    match r {
        Ok((_, id)) => Ok(id),
        Err(e) => Err(e),
    }
}

/// The model of a result that is a text.
pub open spec fn text_result(r: Result<String, AppError>) -> Result<Seq<char>, AppErrorView> {
    match r {
        Ok(text) => Ok(text@),
        Err(e) => Err(e@),
    }
}

/// A speaker of a meeting.
pub open spec fn speaker_of(meeting_id: Seq<char>) -> spec_fn(SpeakerView) -> bool {
    |r: SpeakerView| r.meeting_id == meeting_id
}

/// A speaker, as a client sees them.
pub open spec fn speaker_value() -> spec_fn(SpeakerView) -> JsonView {
    |r: SpeakerView|
        JsonView::Object(
            no_members().insert("id"@, JsonView::Str(r.id)).insert("name"@, JsonView::Str(r.name)),
        )
}

/// The speakers of a meeting, as a client sees them.
pub open spec fn speakers_listed(s: StoreView, meeting_id: Seq<char>) -> Result<
    JsonView,
    AppErrorView,
> {
    if s.has_meeting(meeting_id) {
        Ok(JsonView::Array(s.speakers.filter(speaker_of(meeting_id)).map_values(speaker_value())))
    } else {
        Err(AppErrorView::NotFound)
    }
}

fn speaker_json(r: &Speaker) -> (json: Json)
    ensures
        json@ == speaker_value()(r@),
{
    let mut json = Json::Null;
    json.set("id", string_json(r.id.as_str()));
    json.set("name", string_json(r.name.as_str()));
    json
}

impl Store {
    fn has_speaker(&self, id: &str) -> (found: bool)
        ensures
            found == any(self@.speakers, speaker_is(id@)),
    {
        any_row(
            &self.speakers,
            |r: &Speaker| -> (b: bool)
                ensures b == (r@.id == id@)
                { text_eq(r.id.as_str(), id) },
            Ghost(speaker_is(id@)),
        )
    }

    /// Whether there is a speaker with an id; there need not be where none is named.
    pub(crate) fn speaker_exists(&self, id: &Option<String>) -> (found: bool)
        ensures
            found == (id matches Some(id) ==> any(self@.speakers, speaker_is(id@))),
    {
        match id {
            Some(id) => self.has_speaker(id.as_str()),
            None => true,
        }
    }

    fn push_speaker(&mut self, id: String, meeting_id: &str, name: String)
        ensures
            final(self)@ == (StoreView {
                speakers: old(self)@.speakers.push(
                    SpeakerView { id: id@, meeting_id: meeting_id@, name: name@ },
                ),
                ..old(self)@
            }),
    {
        let ghost before = self@;
        let speaker = Speaker { id, meeting_id: meeting_id.to_owned(), name };
        self.speakers.push(speaker);
        assert(self@.speakers =~= before.speakers.push(speaker@));
    }

    /// Adds a speaker with this id to a meeting.
    pub fn create_speaker_as(&mut self, meeting_id: &str, name: &str, id: &str) -> (r: Result<
        (),
        AppError,
    >)
        ensures
            outcome(r) == came_out(speaker_created(old(self)@, meeting_id@, name@, id@)),
            final(self)@ == or_unchanged(
                speaker_created(old(self)@, meeting_id@, name@, id@),
                old(self)@,
            ),
    {
        if !self.has_meeting(meeting_id) {
            return Err(AppError::NotFound);
        }
        let name = trim(name);
        if name.as_str().is_empty() {
            return Err(bad_request("name is required"));
        }
        if self.has_speaker(id) {
            return Err(taken_key("speakers.id"));
        }
        self.push_speaker(id.to_owned(), meeting_id, name);
        Ok(())
    }

    /// Adds a speaker to a meeting; gives their id.
    pub fn create_speaker(&mut self, meeting_id: &str, name: &str) -> (r: Result<String, AppError>)
        ensures
            exists|id: Seq<char>|
                {
                    &&& #[trigger] is_id(id)
                    &&& final(self)@ == or_unchanged(
                        speaker_created(old(self)@, meeting_id@, name@, id),
                        old(self)@,
                    )
                    &&& text_result(r) == match speaker_created(
                        old(self)@,
                        meeting_id@,
                        name@,
                        id,
                    ) {
                        Ok(_) => Ok(id),
                        Err(e) => Err(e),
                    }
                },
    {
        let id = new_id();
        assert(is_id(id@));
        match self.create_speaker_as(meeting_id, name, id.as_str()) {
            Ok(()) => Ok(id),
            Err(e) => Err(e),
        }
    }

    /// The speaker of a meeting with a name: the first of that name, or a new one
    /// with this id.
    pub fn ensure_speaker_by_name_as(&mut self, meeting_id: &str, name: &str, id: &str) -> (r:
        Result<String, AppError>)
        ensures
            text_result(r) == id_of(speaker_ensured(old(self)@, meeting_id@, name@, id@)),
            final(self)@ == store_of(
                speaker_ensured(old(self)@, meeting_id@, name@, id@),
                old(self)@,
            ),
    {
        let existing = find_row(
            &self.speakers,
            |r: &Speaker| -> (b: bool)
                ensures b == speaker_named(meeting_id@, name@)(r@)
                { text_eq(r.meeting_id.as_str(), meeting_id) && text_eq(r.name.as_str(), name) },
            Ghost(speaker_named(meeting_id@, name@)),
        );
        if let Some(speaker) = existing {
            return Ok(speaker.id.clone());
        }
        if self.has_speaker(id) {
            return Err(taken_key("speakers.id"));
        }
        if !self.has_meeting(meeting_id) {
            return Err(broken_reference());
        }
        self.push_speaker(id.to_owned(), meeting_id, name.to_owned());
        Ok(id.to_owned())
    }

    /// The speaker of a meeting with a name: the first of that name, or a new one.
    pub fn ensure_speaker_by_name(&mut self, meeting_id: &str, name: &str) -> (r: Result<
        String,
        AppError,
    >)
        ensures
            exists|id: Seq<char>|
                {
                    &&& #[trigger] is_id(id)
                    &&& text_result(r) == id_of(
                        speaker_ensured(old(self)@, meeting_id@, name@, id),
                    )
                    &&& final(self)@ == store_of(
                        speaker_ensured(old(self)@, meeting_id@, name@, id),
                        old(self)@,
                    )
                },
    {
        let id = new_id();
        assert(is_id(id@));
        self.ensure_speaker_by_name_as(meeting_id, name, id.as_str())
    }

    /// Lists the speakers of a meeting.
    pub fn list_speakers(&self, meeting_id: &str) -> (answer: Result<Json, AppError>)
        ensures
            answered(answer) == speakers_listed(self@, meeting_id@),
    {
        if !self.has_meeting(meeting_id) {
            return Err(AppError::NotFound);
        }
        let found = select_rows(
            &self.speakers,
            |r: &Speaker| -> (b: bool)
                ensures b == speaker_of(meeting_id@)(r@)
                { text_eq(r.meeting_id.as_str(), meeting_id) },
            Ghost(speaker_of(meeting_id@)),
        );
        Ok(
            json_of_rows(
                &found,
                |r: &&Speaker| -> (out: Json)
                    ensures out@ == speaker_value()(r@)
                    { speaker_json(r) },
                Ghost(speaker_value()),
            ),
        )
    }
}

/// Asking twice for the speaker of a name gives the same speaker, and makes no
/// second one.
pub proof fn law_speaker_is_reused(
    s: StoreView,
    meeting_id: Seq<char>,
    name: Seq<char>,
    id: Seq<char>,
    other_id: Seq<char>,
)
    requires
        speaker_ensured(s, meeting_id, name, id) is Ok,
    ensures
        ({
            let (once, given) = speaker_ensured(s, meeting_id, name, id)->Ok_0;
            speaker_ensured(once, meeting_id, name, other_id) == Ok::<
                (StoreView, Seq<char>),
                AppErrorView,
            >((once, given))
        }),
{
    let p = speaker_named(meeting_id, name);
    crate::rows::lemma_first_holds(s.speakers, p);
    if first(s.speakers, p) is None {
        let (once, given) = speaker_ensured(s, meeting_id, name, id)->Ok_0;
        let at = s.speakers.len() as int;
        assert(p(once.speakers[at]));
        assert forall|j: int| 0 <= j < at implies !p(#[trigger] once.speakers[j]) by {
            assert(once.speakers[j] == s.speakers[j]);
        }
        crate::rows::lemma_first_is(once.speakers, p, at);
    }
}

/// A speaker is added only where the meeting has none of exactly this name: then
/// there is one more, with this name, and else nothing changes.
pub proof fn law_speaker_is_added_only_if_new(
    s: StoreView,
    meeting_id: Seq<char>,
    name: Seq<char>,
    id: Seq<char>,
)
    requires
        speaker_ensured(s, meeting_id, name, id) is Ok,
    ensures
        ({
            let (new, given) = speaker_ensured(s, meeting_id, name, id)->Ok_0;
            let known = any(s.speakers, speaker_named(meeting_id, name));
            &&& known ==> new == s
            &&& !known ==> given == id && new == (StoreView {
                speakers: s.speakers.push(SpeakerView { id, meeting_id, name }),
                ..s
            })
            &&& new.speakers.contains(SpeakerView { id: given, meeting_id, name })
        }),
{
    let p = speaker_named(meeting_id, name);
    crate::rows::lemma_first_holds(s.speakers, p);
    let (new, given) = speaker_ensured(s, meeting_id, name, id)->Ok_0;
    if !any(s.speakers, p) {
        assert(new.speakers[s.speakers.len() as int] == SpeakerView { id, meeting_id, name });
    }
}

/// Another name is another speaker: asked for two different names of a meeting, one
/// after the other, two different speakers are given.
pub proof fn law_another_name_is_another_speaker(
    s: StoreView,
    meeting_id: Seq<char>,
    name: Seq<char>,
    id: Seq<char>,
    other_name: Seq<char>,
    other_id: Seq<char>,
)
    requires
        sound(s),
        name != other_name,
        speaker_ensured(s, meeting_id, name, id) is Ok,
        speaker_ensured(
            speaker_ensured(s, meeting_id, name, id)->Ok_0.0,
            meeting_id,
            other_name,
            other_id,
        ) is Ok,
    ensures
        ({
            let (once, given) = speaker_ensured(s, meeting_id, name, id)->Ok_0;
            let (_, other) = speaker_ensured(once, meeting_id, other_name, other_id)->Ok_0;
            given != other
        }),
{
    let (once, given) = speaker_ensured(s, meeting_id, name, id)->Ok_0;
    let (twice, other) = speaker_ensured(once, meeting_id, other_name, other_id)->Ok_0;
    law_sound_after_ensure_speaker(s, meeting_id, name, id);
    law_sound_after_ensure_speaker(once, meeting_id, other_name, other_id);
    law_speaker_is_added_only_if_new(s, meeting_id, name, id);
    law_speaker_is_added_only_if_new(once, meeting_id, other_name, other_id);
    let row = SpeakerView { id: given, meeting_id, name };
    let other_row = SpeakerView { id: other, meeting_id, name: other_name };
    let k = choose|k: int| 0 <= k < once.speakers.len() && once.speakers[k] == row;
    assert(twice.speakers[k] == row);
    let j = choose|j: int| 0 <= j < twice.speakers.len() && twice.speakers[j] == other_row;
    if given == other {
        assert(speaker_id()(twice.speakers[k]) == speaker_id()(twice.speakers[j]));
        assert(j == k);
    }
}

/// Asking for the speaker of a name gives one of this meeting with exactly this name.
/// A speaker that the meeting has of this name is given, and nothing changes; where it
/// has none, one is added with the new id. No other row changes.
pub proof fn law_speaker_of_a_name(
    s: StoreView,
    meeting_id: Seq<char>,
    name: Seq<char>,
    id: Seq<char>,
)
    requires
        speaker_ensured(s, meeting_id, name, id) is Ok,
    ensures
        ({
            let (new, given) = speaker_ensured(s, meeting_id, name, id)->Ok_0;
            &&& exists|k: int|
                0 <= k < new.speakers.len() && (#[trigger] new.speakers[k]).id == given
                    && new.speakers[k].meeting_id == meeting_id && new.speakers[k].name == name
            &&& s.speakers.len() <= new.speakers.len() <= s.speakers.len() + 1
            &&& forall|k: int|
                0 <= k < s.speakers.len() ==> new.speakers[k] == #[trigger] s.speakers[k]
            &&& new.speakers.len() > s.speakers.len() ==> given == id && forall|k: int|
                0 <= k < s.speakers.len() ==> !((#[trigger] s.speakers[k]).meeting_id == meeting_id
                    && s.speakers[k].name == name)
            &&& new.meetings == s.meetings && new.segments == s.segments && new.summaries
                == s.summaries && new.boards == s.boards && new.board_versions
                == s.board_versions && new.jobs == s.jobs
        }),
{
    let p = speaker_named(meeting_id, name);
    crate::rows::lemma_first_holds(s.speakers, p);
    let (new, given) = speaker_ensured(s, meeting_id, name, id)->Ok_0;
    match first(s.speakers, p) {
        Some(r) => {
            let k = choose|k: int| 0 <= k < s.speakers.len() && s.speakers[k] == r;
            assert(new.speakers[k].id == given);
        },
        None => {
            let last = s.speakers.len() as int;
            assert(new.speakers[last].id == given);
            assert forall|k: int| 0 <= k < s.speakers.len() implies !((
            #[trigger] s.speakers[k]).meeting_id == meeting_id && s.speakers[k].name == name) by {
                assert(!p(s.speakers[k]));
            }
        },
    }
}

/// The speaker of a name can always be had in a meeting that is there, if the id for a
/// new one is free.
pub proof fn law_speaker_of_a_name_can_be_had(
    s: StoreView,
    meeting_id: Seq<char>,
    name: Seq<char>,
    id: Seq<char>,
    at: int,
)
    requires
        0 <= at < s.meetings.len(),
        s.meetings[at].id == meeting_id,
        forall|k: int| 0 <= k < s.speakers.len() ==> (#[trigger] s.speakers[k]).id != id,
    ensures
        speaker_ensured(s, meeting_id, name, id) is Ok,
{
    assert(meeting_is(meeting_id)(s.meetings[at]));
}

/// A speaker is added to a meeting that is there, with a name that is not blank and an
/// id that is free: one more row, of this meeting, with this id and the trimmed name, and
/// nothing else changes. Else nobody is added.
pub proof fn law_created_speaker_is_added(
    s: StoreView,
    meeting_id: Seq<char>,
    name: Seq<char>,
    id: Seq<char>,
)
    ensures
        speaker_created(s, meeting_id, name, id) is Ok <==> (exists|i: int|
            0 <= i < s.meetings.len() && (#[trigger] s.meetings[i]).id == meeting_id) && trimmed(
            name,
        ).len() > 0 && forall|k: int|
            0 <= k < s.speakers.len() ==> (#[trigger] s.speakers[k]).id != id,
        speaker_created(s, meeting_id, name, id) matches Ok(new) ==> {
            let row = new.speakers[s.speakers.len() as int];
            &&& new.speakers.len() == s.speakers.len() + 1
            &&& forall|k: int|
                0 <= k < s.speakers.len() ==> new.speakers[k] == #[trigger] s.speakers[k]
            &&& row.id == id && row.meeting_id == meeting_id && row.name == trimmed(name)
            &&& new.meetings == s.meetings && new.segments == s.segments && new.summaries
                == s.summaries && new.boards == s.boards && new.board_versions
                == s.board_versions && new.jobs == s.jobs
        },
        (forall|i: int| 0 <= i < s.meetings.len() ==> (#[trigger] s.meetings[i]).id != meeting_id)
            ==> speaker_created(s, meeting_id, name, id) == Err::<StoreView, AppErrorView>(
            AppErrorView::NotFound,
        ),
        (exists|i: int| 0 <= i < s.meetings.len() && (#[trigger] s.meetings[i]).id == meeting_id)
            && trimmed(name).len() == 0 ==> speaker_created(s, meeting_id, name, id) == Err::<
            StoreView,
            AppErrorView,
        >(AppErrorView::BadRequest("name is required"@)),
{
    if exists|i: int| 0 <= i < s.meetings.len() && (#[trigger] s.meetings[i]).id == meeting_id {
        let i = choose|i: int|
            0 <= i < s.meetings.len() && (#[trigger] s.meetings[i]).id == meeting_id;
        assert(meeting_is(meeting_id)(s.meetings[i]));
    }
    if exists|k: int| 0 <= k < s.speakers.len() && (#[trigger] s.speakers[k]).id == id {
        let k = choose|k: int| 0 <= k < s.speakers.len() && (#[trigger] s.speakers[k]).id == id;
        assert(speaker_is(id)(s.speakers[k]));
    }
}

/// The list of a meeting's speakers has, in the order in which they were added, every
/// speaker of the meeting and no other, each with its id and its name and nothing else.
pub proof fn law_speakers_are_listed(s: StoreView, meeting_id: Seq<char>, at: int)
    requires
        0 <= at < s.meetings.len(),
        s.meetings[at].id == meeting_id,
    ensures
        ({
            let rows = s.speakers.filter(|r: SpeakerView| r.meeting_id == meeting_id);
            &&& speakers_listed(s, meeting_id) matches Ok(v) && v is Array && v->Array_0.len()
                == rows.len() && forall|i: int|
                0 <= i < rows.len() ==> (#[trigger] v->Array_0[i]) is Object
                    && v->Array_0[i]->Object_0.dom() == set!["id"@, "name"@]
                    && v->Array_0[i]->Object_0["id"@] == JsonView::Str(rows[i].id)
                    && v->Array_0[i]->Object_0["name"@] == JsonView::Str(rows[i].name)
        }),
{
    assert(meeting_is(meeting_id)(s.meetings[at]));
    let p = |r: SpeakerView| r.meeting_id == meeting_id;
    assert(p =~= speaker_of(meeting_id));
    reveal_strlit("id");
    reveal_strlit("name");
    assert("id"@.len() == 2 && "name"@.len() == 4);
    let rows = s.speakers.filter(p);
    let v = speakers_listed(s, meeting_id)->Ok_0;
    assert forall|i: int| 0 <= i < rows.len() implies (#[trigger] v->Array_0[i]) is Object
        && v->Array_0[i]->Object_0.dom() == set!["id"@, "name"@] && v->Array_0[i]->Object_0["id"@]
        == JsonView::Str(rows[i].id) && v->Array_0[i]->Object_0["name"@] == JsonView::Str(
        rows[i].name,
    ) by {
        assert(v->Array_0[i] == speaker_value()(rows[i]));
        assert(v->Array_0[i]->Object_0.dom() =~= set!["id"@, "name"@]);
    }
}

/// What the database says of a speaker that it refuses: that the id is taken, or else that
/// the meeting is not there.
pub proof fn law_why_a_speaker_is_refused(
    s: StoreView,
    meeting_id: Seq<char>,
    name: Seq<char>,
    id: Seq<char>,
)
    ensures
        ({
            let taken = exists|k: int|
                0 <= k < s.speakers.len() && (#[trigger] s.speakers[k]).id == id;
            &&& speaker_ensured(s, meeting_id, name, id) matches Err(e) ==> e == if taken {
                key_taken("speakers.id"@)
            } else {
                reference_broken()
            }
            &&& taken && s.has_meeting(meeting_id) && trimmed(name).len() > 0 ==> speaker_created(
                s,
                meeting_id,
                name,
                id,
            ) == Err::<StoreView, AppErrorView>(key_taken("speakers.id"@))
        }),
{
    let p = speaker_is(id);
    if any(s.speakers, p) {
        let k = choose|k: int| 0 <= k < s.speakers.len() && p(#[trigger] s.speakers[k]);
        assert(s.speakers[k].id == id);
    }
    if exists|k: int| 0 <= k < s.speakers.len() && (#[trigger] s.speakers[k]).id == id {
        let k = choose|k: int| 0 <= k < s.speakers.len() && (#[trigger] s.speakers[k]).id == id;
        assert(p(s.speakers[k]));
    }
}

} // verus!
