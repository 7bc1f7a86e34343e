//! Listening in a live room: one bot per meeting, which cuts the sound of each
//! track into windows and hands them on as segments.
use vstd::hash_map::StringHashMap;
use vstd::prelude::*;

use crate::error::{outcome, AppError, AppErrorView};
use crate::events::{
    event_views, ingest_failed, segment_recorded, tell_ingest_failed, tell_segment_recorded,
    EventView, MeetingEvent,
};
use crate::ids::{is_id, new_id};
use crate::number::{decimal, law_decimal_reads_back, parse_i64, parsed_i64};
use crate::segments::{segment_added, NewSegment};
use crate::speakers::{id_of, law_speaker_of_a_name, speaker_ensured, store_of, text_result};
use crate::store::{
    Clock, ClockView, JobStatus, JobTypeView, SegmentStatus, SegmentView, Store, StoreView,
};
use crate::text::{concat2, opt_str, opt_text};

verus! {

/// How many samples of sound a second has.
pub const INGEST_SAMPLE_RATE: u32 = 16_000;

/// How often in a row connecting to a room may fail.
pub const MAX_CONNECT_ATTEMPTS: u32 = 5;

/// How long the end of a track must be, in milliseconds, to be worth transcribing.
pub const MIN_FLUSH_MS: i64 = 500;

/// How to get into a room.
#[derive(Debug, Clone, PartialEq)]
pub struct LivekitIngest {
    pub url: String,
    /// The name of the room, for the log.
    pub room_name: String,
    pub token: String,
}

/// How long the windows are into which sound is cut, in milliseconds: what is
/// asked for, if it is from one second to one minute, else five seconds.
pub open spec fn window_length(setting: Option<Seq<char>>) -> i64 {
    match setting {
        Some(text) => match parsed_i64(text) {
            Some(n) => if 1000 <= n <= 60_000 {
                n
            } else {
                5_000
            },
            None => 5_000,
        },
        None => 5_000,
    }
}

/// How long the windows are into which sound is cut, in milliseconds.
pub fn ingest_window_ms(setting: Option<&str>) -> (n: i64)
    ensures
        n == window_length(opt_str(setting)),
        1000 <= n <= 60_000,
{
    match setting {
        Some(text) => match parse_i64(text) {
            Some(n) => if 1000 <= n && n <= 60_000 {
                n
            } else {
                5_000
            },
            None => 5_000,
        },
        None => 5_000,
    }
}

/// How many samples a window has.
pub open spec fn samples_in(window_ms: i64) -> int {
    INGEST_SAMPLE_RATE * window_ms / 1000
}

/// How many samples a window has.
pub fn window_samples(window_ms: i64) -> (n: usize)
    requires
        1000 <= window_ms <= 60_000,
    ensures
        n == samples_in(window_ms),
        n > 0,
{
    (INGEST_SAMPLE_RATE as i64 * window_ms / 1000) as usize
}

/// How long samples last, in milliseconds.
pub open spec fn duration_ms(samples: nat) -> int {
    samples as int * 1000 / INGEST_SAMPLE_RATE as int
}

/// What is worth transcribing of the samples at the end of a track: all of them where
/// they are long enough, else nothing.
pub open spec fn tail_of(samples: Seq<i16>) -> Option<Seq<i16>> {
    if duration_ms(samples.len()) >= MIN_FLUSH_MS {
        Some(samples)
    } else {
        None
    }
}

/// The whole windows that samples are cut into.
pub open spec fn windows_of(samples: Seq<i16>, n: nat) -> Seq<Seq<i16>>
    decreases samples.len(),
{
    if n == 0 || samples.len() < n {
        Seq::empty()
    } else {
        seq![samples.take(n as int)] + windows_of(samples.skip(n as int), n)
    }
}

/// What is left of samples that were cut into windows.
pub open spec fn rest_of(samples: Seq<i16>, n: nat) -> Seq<i16>
    decreases samples.len(),
{
    if n == 0 || samples.len() < n {
        samples
    } else {
        rest_of(samples.skip(n as int), n)
    }
}

/// Windows one after the other.
pub open spec fn strung(windows: Seq<Seq<i16>>) -> Seq<i16>
    decreases windows.len(),
{
    if windows.len() == 0 {
        Seq::empty()
    } else {
        windows[0] + strung(windows.skip(1))
    }
}

/// The models of windows.
pub open spec fn window_views(windows: Seq<Vec<i16>>) -> Seq<Seq<i16>> {
    windows.map_values(|w: Vec<i16>| w@)
}

/// The sound of a track that does not fill a window yet.
#[derive(Debug)]
pub struct TrackBuffer {
    samples: Vec<i16>,
    window: usize,
}

impl TrackBuffer {
    /// The samples that do not fill a window yet.
    pub closed spec fn held(self) -> Seq<i16> {
        self.samples@
    }

    /// How many samples a window has.
    pub closed spec fn window(self) -> nat {
        self.window as nat
    }

    /// Less than a window is held back.
    #[verifier::type_invariant]
    spec fn holds_less_than_a_window(self) -> bool {
        self.samples@.len() < self.window
    }

    /// A buffer without sound, for windows of so many samples.
    pub fn new(window: usize) -> (buffer: TrackBuffer)
        requires
            window > 0,
        ensures
            buffer.held() == Seq::<i16>::empty(),
            buffer.window() == window,
    {
        TrackBuffer { samples: Vec::new(), window }
    }

    /// Takes in the next samples of the track; gives the windows that are full now.
    pub fn push_frame(&mut self, frame: &[i16]) -> (full: Vec<Vec<i16>>)
        ensures
            window_views(full@) == windows_of(old(self).held() + frame@, old(self).window()),
            final(self).held() == rest_of(old(self).held() + frame@, old(self).window()),
            final(self).window() == old(self).window(),
            final(self).held().len() < final(self).window(),
    {
        proof {
            use_type_invariant(&*self);
        }
        let n: usize = self.window;
        let ghost all = self.samples@ + frame@;
        let mut current: Vec<i16> = Vec::new();
        std::mem::swap(&mut current, &mut self.samples);
        let ghost held = current@;
        let mut full: Vec<Vec<i16>> = Vec::new();
        let mut i: usize = 0;
        proof {
            assert(held + frame@.take(0) =~= held);
            assert(window_views(full@) =~= Seq::empty());
            assert(windows_of(held, n as nat) =~= Seq::empty());
        }
        while i < frame.len()
            invariant
                i <= frame@.len(),
                n > 0,
                current@.len() < n,
                window_views(full@) == windows_of(held + frame@.take(i as int), n as nat),
                current@ == rest_of(held + frame@.take(i as int), n as nat),
            decreases frame@.len() - i,
        {
            let ghost before = held + frame@.take(i as int);
            let ghost filled = full@;
            let ghost kept = current@;
            let sample = frame[i];
            current.push(sample);
            proof {
                assert(held + frame@.take(i + 1) =~= before.push(sample));
                lemma_one_more(before, sample, n as nat);
            }
            if current.len() == n {
                full.push(current);
                current = Vec::new();
                assert(window_views(full@) =~= window_views(filled).push(kept.push(sample)));
            }
            i += 1;
        }
        assert(held + frame@.take(frame@.len() as int) =~= all);
        self.samples = current;
        full
    }

    /// What is left at the end of the track; nothing where it is too short.
    pub fn into_tail(self) -> (tail: Option<Vec<i16>>)
        ensures
            tail_of(self.held()) == match tail {
                Some(tail) => Some(tail@),
                None => None,
            },
    {
        if self.samples.len() as u128 * 1000 / INGEST_SAMPLE_RATE as u128 >= MIN_FLUSH_MS as u128 {
            Some(self.samples)
        } else {
            None
        }
    }
}

proof fn lemma_one_more(samples: Seq<i16>, sample: i16, n: nat)
    requires
        n > 0,
    ensures
        rest_of(samples, n).len() < n,
        rest_of(samples, n).len() + 1 < n ==> windows_of(samples.push(sample), n) == windows_of(
            samples,
            n,
        ) && rest_of(samples.push(sample), n) == rest_of(samples, n).push(sample),
        rest_of(samples, n).len() + 1 == n ==> windows_of(samples.push(sample), n) == windows_of(
            samples,
            n,
        ).push(rest_of(samples, n).push(sample)) && rest_of(samples.push(sample), n) == Seq::<
            i16,
        >::empty(),
    decreases samples.len(),
{
    let more = samples.push(sample);
    if samples.len() < n {
        if samples.len() + 1 == n {
            assert(more.take(n as int) =~= more);
            assert(more.skip(n as int) =~= Seq::empty());
            assert(windows_of(more.skip(n as int), n) =~= Seq::empty());
            assert(rest_of(more, n) == rest_of(more.skip(n as int), n));
            assert(rest_of(more.skip(n as int), n) == more.skip(n as int));
            assert(windows_of(more, n) =~= windows_of(samples, n).push(more));
        }
    } else {
        lemma_one_more(samples.skip(n as int), sample, n);
        assert(more.skip(n as int) =~= samples.skip(n as int).push(sample));
        assert(more.take(n as int) =~= samples.take(n as int));
        let rest = rest_of(samples, n);
        if rest.len() + 1 == n {
            assert(windows_of(more, n) =~= windows_of(samples, n).push(rest.push(sample)));
        }
    }
}

/// No sample is lost, doubled or moved when sound is cut into windows: the windows
/// and what is left, one after the other, are the sound.
pub proof fn law_cutting_keeps_all_samples(samples: Seq<i16>, n: nat)
    requires
        n > 0,
    ensures
        strung(windows_of(samples, n)) + rest_of(samples, n) == samples,
        rest_of(samples, n).len() < n,
        forall|i: int|
            0 <= i < windows_of(samples, n).len() ==> (#[trigger] windows_of(samples, n)[i]).len()
                == n,
    decreases samples.len(),
{
    let windows = windows_of(samples, n);
    if samples.len() < n {
        assert(strung(windows) + rest_of(samples, n) =~= samples);
    } else {
        let behind = samples.skip(n as int);
        law_cutting_keeps_all_samples(behind, n);
        assert(windows.skip(1) =~= windows_of(behind, n));
        assert(windows[0] == samples.take(n as int));
        assert(strung(windows) + rest_of(samples, n) =~= samples.take(n as int) + (strung(
            windows_of(behind, n),
        ) + rest_of(behind, n)));
        assert(samples.take(n as int) + behind =~= samples);
        assert forall|i: int| 0 <= i < windows.len() implies (#[trigger] windows[i]).len() == n by {
            if i > 0 {
                assert(windows[i] == windows_of(behind, n)[i - 1]);
            }
        }
    }
}

/// It does not matter in which frames sound comes in: cutting one part of it, and then
/// what is left together with the next part, gives the same windows and leaves the same
/// as cutting the whole.
pub proof fn law_frames_do_not_matter(a: Seq<i16>, b: Seq<i16>, n: nat)
    requires
        n > 0,
    ensures
        windows_of(a + b, n) == windows_of(a, n) + windows_of(rest_of(a, n) + b, n),
        rest_of(a + b, n) == rest_of(rest_of(a, n) + b, n),
    decreases a.len(),
{
    if a.len() < n {
        assert(windows_of(a + b, n) =~= windows_of(a, n) + windows_of(rest_of(a, n) + b, n));
    } else {
        let behind = a.skip(n as int);
        law_frames_do_not_matter(behind, b, n);
        assert((a + b).skip(n as int) =~= behind + b);
        assert((a + b).take(n as int) =~= a.take(n as int));
        assert(windows_of(a + b, n) =~= windows_of(a, n) + windows_of(rest_of(a, n) + b, n));
    }
}

/// The windows that sound is cut into which comes in these frames.
pub open spec fn windows_by_frame(frames: Seq<Seq<i16>>, n: nat) -> Seq<Seq<i16>>
    decreases frames.len(),
{
    if frames.len() == 0 {
        Seq::empty()
    } else {
        windows_by_frame(frames.drop_last(), n) + windows_of(
            held_after(frames.drop_last(), n) + frames.last(),
            n,
        )
    }
}

/// What is held of sound that came in these frames.
pub open spec fn held_after(frames: Seq<Seq<i16>>, n: nat) -> Seq<i16>
    decreases frames.len(),
{
    if frames.len() == 0 {
        Seq::empty()
    } else {
        rest_of(held_after(frames.drop_last(), n) + frames.last(), n)
    }
}

/// The sound of these frames.
pub open spec fn sound_of(frames: Seq<Seq<i16>>) -> Seq<i16>
    decreases frames.len(),
{
    if frames.len() == 0 {
        Seq::empty()
    } else {
        sound_of(frames.drop_last()) + frames.last()
    }
}

/// A track is cut into the same windows, and leaves the same, however many frames it
/// comes in.
pub proof fn law_track_is_cut_as_a_whole(frames: Seq<Seq<i16>>, n: nat)
    requires
        n > 0,
    ensures
        windows_by_frame(frames, n) == windows_of(sound_of(frames), n),
        held_after(frames, n) == rest_of(sound_of(frames), n),
    decreases frames.len(),
{
    if frames.len() > 0 {
        law_track_is_cut_as_a_whole(frames.drop_last(), n);
        law_frames_do_not_matter(sound_of(frames.drop_last()), frames.last(), n);
    } else {
        assert(windows_of(sound_of(frames), n) =~= Seq::empty());
    }
}

/// Whether it can be reckoned when samples started that ended now.
pub open spec fn chunk_fits(end_ms: i64, samples: usize) -> bool {
    samples * 1000 <= i64::MAX && end_ms - duration_ms(samples as nat) >= i64::MIN
}

/// Whether it can be reckoned when samples started that ended now.
pub fn can_reckon_start(end_ms: i64, samples: usize) -> (fits: bool)
    ensures
        fits == chunk_fits(end_ms, samples),
{
    if samples as u128 * 1000 > i64::MAX as u128 {
        return false;
    }
    let duration: i64 = samples as i64 * 1000 / INGEST_SAMPLE_RATE as i64;
    end_ms.checked_sub(duration).is_some()
}

/// When samples started that ended now, as far as they did not start before the
/// meeting did.
pub open spec fn chunk_start(end_ms: i64, samples: nat) -> int {
    if end_ms - duration_ms(samples) < 0 {
        0
    } else {
        end_ms - duration_ms(samples)
    }
}

/// When samples started that ended now.
pub fn chunk_start_ms(end_ms: i64, samples: usize) -> (start: i64)
    requires
        chunk_fits(end_ms, samples),
    ensures
        start == chunk_start(end_ms, samples as nat),
{
    let duration: i64 = samples as i64 * 1000 / INGEST_SAMPLE_RATE as i64;
    let start: i64 = end_ms - duration;
    if start < 0 {
        0
    } else {
        start
    }
}

/// The name of the file in which a window of sound is stored.
pub fn live_file_name(id: &str) -> (name: String)
    ensures
        name@ == id@ + "-live.wav"@,
{
    concat2(id, "-live.wav")
}

/// How a participant is called: by their name, or by their identity where they
/// have none.
pub open spec fn called(identity: Seq<char>, name: Seq<char>) -> Seq<char> {
    if name.len() == 0 {
        identity
    } else {
        name
    }
}

/// How a participant is called: by their name, or by their identity where they
/// have none.
pub fn display_name(identity: &str, name: &str) -> (shown: String)
    ensures
        shown@ == called(identity@, name@),
{
    if name.is_empty() {
        identity.to_owned()
    } else {
        name.to_owned()
    }
}

/// A value for each of some texts.
#[verifier::reject_recursive_types(T)]
pub struct Table<T> {
    entries: StringHashMap<T>,
}

impl<T> View for Table<T> {
    type V = Map<Seq<char>, T>;

    closed spec fn view(&self) -> Map<Seq<char>, T> {
        self.entries@
    }
}

impl<T> Table<T> {
    /// A table without entries.
    pub fn new() -> (table: Table<T>)
        ensures
            table@ == Map::<Seq<char>, T>::empty(),
    {
        Table { entries: StringHashMap::new() }
    }

    /// The value of a text.
    pub fn get(&self, key: &str) -> (value: Option<&T>)
        ensures
            match value {
                Some(value) => self@.contains_key(key@) && self@[key@] == *value,
                None => !self@.contains_key(key@),
            },
    {
        self.entries.get(key)
    }

    /// Sets the value of a text.
    pub fn insert(&mut self, key: String, value: T)
        ensures
            final(self)@ == old(self)@.insert(key@, value),
    {
        self.entries.insert(key, value);
    }

    /// Removes a text and its value.
    pub fn remove(&mut self, key: &str)
        ensures
            final(self)@ == old(self)@.remove(key@),
    {
        self.entries.remove(key);
    }
}

/// The signals of the bots that listen once one is to listen to a meeting, and whether
/// it is to be started: unless one listens already.
pub open spec fn bot_started<T>(running: Map<Seq<char>, T>, meeting_id: Seq<char>, signal: T) -> (
    Map<Seq<char>, T>,
    bool,
) {
    if running.contains_key(meeting_id) {
        (running, false)
    } else {
        (running.insert(meeting_id, signal), true)
    }
}

/// Notes that a bot listens to a meeting, with the signal that stops it, unless
/// one listens already; tells whether the bot is to be started.
pub fn spawn_ingest<T>(running: &mut Table<T>, meeting_id: &str, signal: T) -> (started: bool)
    ensures
        (final(running)@, started) == bot_started(old(running)@, meeting_id@, signal),
{
    if running.get(meeting_id).is_some() {
        return false;
    }
    running.insert(meeting_id.to_owned(), signal);
    true
}

/// The signal that stops the bot which listens to a meeting, where one does.
pub fn stop_ingest<'a, T>(running: &'a Table<T>, meeting_id: &str) -> (signal: Option<&'a T>)
    ensures
        match signal {
            Some(signal) => running@.contains_key(meeting_id@) && *signal == running@[meeting_id@],
            None => !running@.contains_key(meeting_id@),
        },
{
    running.get(meeting_id)
}

/// The model of a table of texts.
pub open spec fn text_table(table: Map<Seq<char>, String>) -> Map<Seq<char>, Seq<char>> {
    table.map_values(|t: String| t@)
}

/// The speaker of an identity, the store and what is known of identities then:
/// each identity has one speaker, who is found, or made, when it is seen first.
pub open spec fn identity_speaker(
    known: Map<Seq<char>, Seq<char>>,
    s: StoreView,
    meeting_id: Seq<char>,
    identity: Seq<char>,
    name: Seq<char>,
    id: Seq<char>,
) -> (Map<Seq<char>, Seq<char>>, StoreView, Result<Seq<char>, AppErrorView>) {
    if known.contains_key(identity) {
        (known, s, Ok(known[identity]))
    } else {
        let found = speaker_ensured(s, meeting_id, name, id);
        (
            match id_of(found) {
                Ok(given) => known.insert(identity, given),
                Err(_) => known,
            },
            store_of(found, s),
            id_of(found),
        )
    }
}

/// The speaker of an identity. `id` is that of a new speaker, where one is needed.
pub fn cached_speaker(
    known: &mut Table<String>,
    store: &mut Store,
    meeting_id: &str,
    identity: &str,
    name: &str,
    id: &str,
) -> (speaker: Result<String, AppError>)
    ensures
        (text_table(final(known)@), final(store)@, text_result(speaker)) == identity_speaker(
            text_table(old(known)@),
            old(store)@,
            meeting_id@,
            identity@,
            name@,
            id@,
        ),
{
    if let Some(found) = known.get(identity) {
        return Ok(found.clone());
    }
    let ghost before = known@;
    match store.ensure_speaker_by_name_as(meeting_id, name, id) {
        Ok(found) => {
            known.insert(identity.to_owned(), found.clone());
            assert(text_table(known@) =~= text_table(before).insert(identity@, found@));
            Ok(found)
        },
        Err(e) => Err(e),
    }
}

/// Whether a bot tries to get into the room, or is done.
pub fn goes_on(stopped: bool, ended: bool) -> (b: bool)
    ensures
        b == (!stopped && !ended),
{
    !stopped && !ended
}

/// How long a bot waits, in seconds, after so many failures in a row.
pub open spec fn pause_seconds(attempts: int) -> int {
    2 * if attempts < 1 {
        1
    } else {
        attempts
    }
}

/// How often in a row a bot failed to get into the room.
#[derive(Debug)]
pub struct Connecting {
    attempts: u32,
}

/// What a bot does after it failed to get into the room.
#[derive(Debug)]
pub enum AfterFailure {
    /// Waits so many seconds, and tries again.
    Wait(u64),
    /// Gives up, and says so.
    GiveUp(MeetingEvent),
}

impl Connecting {
    /// How often in a row it failed.
    pub closed spec fn failures(self) -> int {
        self.attempts as int
    }

    /// A bot that goes on has not failed as often as it may.
    #[verifier::type_invariant]
    spec fn may_go_on(self) -> bool {
        self.attempts <= MAX_CONNECT_ATTEMPTS
    }

    /// A bot that has not failed yet.
    pub fn new() -> (c: Connecting)
        ensures
            c.failures() == 0,
    {
        Connecting { attempts: 0 }
    }

    /// Notes that it got into the room; gives how long it waits after it was there.
    pub fn connected(&mut self) -> (pause: u64)
        ensures
            final(self).failures() == 0,
            pause == pause_seconds(0),
    {
        self.attempts = 0;
        2
    }

    /// Notes that it failed, with the reason.
    pub fn failed(&mut self, meeting_id: &str, reason: &str) -> (next: AfterFailure)
        requires
            old(self).failures() < MAX_CONNECT_ATTEMPTS,
        ensures
            final(self).failures() == old(self).failures() + 1,
            match next {
                AfterFailure::Wait(pause) => final(self).failures() < MAX_CONNECT_ATTEMPTS && pause
                    == pause_seconds(final(self).failures()),
                AfterFailure::GiveUp(event) => final(self).failures() == MAX_CONNECT_ATTEMPTS
                    && event@ == ingest_failed(
                    meeting_id@,
                    reason@,
                    final(self).failures() as i64,
                ),
            },
    {
        let attempts: u32 = self.attempts + 1;
        self.attempts = attempts;
        if attempts >= MAX_CONNECT_ATTEMPTS {
            AfterFailure::GiveUp(tell_ingest_failed(meeting_id, reason, attempts as i64))
        } else {
            AfterFailure::Wait(attempts as u64 * 2)
        }
    }
}

/// What can happen while a bot is in a room.
#[derive(Debug, Clone, Copy, PartialEq, Eq, Structural)]
pub enum RoomChange {
    /// Someone's sound can be heard.
    AudioTrack,
    /// Something of someone's can be had that is no sound.
    OtherTrack,
    /// The room was left.
    Disconnected,
    /// Nothing more is told of the room.
    Closed,
    /// The bot is told to stop.
    Stop,
    /// Anything else.
    Other,
}

/// What a bot does then.
#[derive(Debug, Clone, Copy, PartialEq, Eq, Structural)]
pub enum RoomStep {
    /// Listens to the track.
    Listen,
    /// Waits for what comes next.
    Stay,
    /// Leaves, after what was heard is handed on.
    Leave,
}

/// What a bot does when something happens in a room.
pub fn room_step(change: RoomChange) -> (step: RoomStep)
    ensures
        step == RoomStep::Listen <==> change == RoomChange::AudioTrack,
        step == RoomStep::Leave <==> (change == RoomChange::Disconnected || change
            == RoomChange::Closed || change == RoomChange::Stop),
{
    match change {
        RoomChange::AudioTrack => RoomStep::Listen,
        RoomChange::Disconnected | RoomChange::Closed | RoomChange::Stop => RoomStep::Leave,
        RoomChange::OtherTrack | RoomChange::Other => RoomStep::Stay,
    }
}

/// One identity has one speaker: asked again, whatever name is given, the same
/// one comes back, and nothing changes.
pub proof fn law_identity_keeps_its_speaker(
    known: Map<Seq<char>, Seq<char>>,
    s: StoreView,
    meeting_id: Seq<char>,
    identity: Seq<char>,
    name: Seq<char>,
    id: Seq<char>,
    other_name: Seq<char>,
    other_id: Seq<char>,
)
    requires
        identity_speaker(known, s, meeting_id, identity, name, id).2 is Ok,
    ensures
        ({
            let (then, store, given) = identity_speaker(known, s, meeting_id, identity, name, id);
            identity_speaker(then, store, meeting_id, identity, other_name, other_id) == (
                then,
                store,
                given,
            )
        }),
{
}

/// The segment of a window of live sound, which ended now.
pub open spec fn live_segment(
    meeting_id: Seq<char>,
    speaker: Option<Seq<char>>,
    sequence_no: i64,
    end_ms: i64,
    samples: nat,
    id: Seq<char>,
    file_path: Seq<char>,
) -> SegmentView {
    SegmentView {
        id,
        meeting_id,
        speaker_id: speaker,
        sequence_no,
        start_ms: chunk_start(end_ms, samples) as i64,
        end_ms,
        file_path,
        transcript: None,
        status: SegmentStatus::Uploaded,
    }
}

/// The store, the events and the outcome of taking in a window of live sound.
pub open spec fn chunk_taken_in(
    s: StoreView,
    meeting_id: Seq<char>,
    speaker: Option<Seq<char>>,
    sequence_no: i64,
    end_ms: i64,
    samples: nat,
    id: Seq<char>,
    file_path: Seq<char>,
    job_id: Seq<char>,
    clock: ClockView,
) -> (StoreView, Seq<EventView>, Result<(), AppErrorView>) {
    let segment = live_segment(meeting_id, speaker, sequence_no, end_ms, samples, id, file_path);
    segment_added(
        s,
        segment,
        segment_recorded(meeting_id, id, sequence_no, segment.start_ms, end_ms),
        job_id,
        clock,
    )
}

impl Store {
    /// Takes in a window of so many samples of live sound, which ended now and is
    /// stored at a path. `id` is that of the segment.
    pub fn take_in_chunk(
        &mut self,
        meeting_id: &str,
        speaker: Option<String>,
        sequence_no: i64,
        end_ms: i64,
        samples: usize,
        id: &str,
        file_path: String,
        clock: &Clock,
    ) -> (done: (Vec<MeetingEvent>, Result<(), AppError>))
        requires
            chunk_fits(end_ms, samples),
        ensures
            exists|job_id: Seq<char>|
                #[trigger] is_id(job_id) && (final(self)@, event_views(done.0@), outcome(done.1))
                    == chunk_taken_in(
                    old(self)@,
                    meeting_id@,
                    opt_text(speaker),
                    sequence_no,
                    end_ms,
                    samples as nat,
                    id@,
                    file_path@,
                    job_id,
                    clock@,
                ),
    {
        let job_id = new_id();
        assert(is_id(job_id@));
        let mut events: Vec<MeetingEvent> = Vec::new();
        proof {
            assert(event_views(events@) =~= Seq::empty());
        }
        let start_ms: i64 = chunk_start_ms(end_ms, samples);
        let segment = NewSegment {
            id: id.to_owned(),
            meeting_id: meeting_id.to_owned(),
            speaker_id: speaker,
            sequence_no,
            start_ms,
            end_ms,
            file_path,
            transcript: None,
        };
        match self.insert_segment_as(segment, job_id, clock) {
            Ok(()) => {
                let told = tell_segment_recorded(meeting_id, id, sequence_no, start_ms, end_ms);
                events.push(told);
                assert(event_views(events@) =~= seq![told@]);
                (events, Ok(()))
            },
            Err(e) => (events, Err(e)),
        }
    }
}

/// The windows into which sound is cut are as long as is set, where that is a number of
/// milliseconds from one second to one minute, and five seconds long otherwise.
pub proof fn law_window_length_is_what_is_set(n: i64, setting: Option<Seq<char>>)
    ensures
        1000 <= n <= 60_000 ==> window_length(Some(decimal(n as int))) == n,
        n < 1000 || n > 60_000 ==> window_length(Some(decimal(n as int))) == 5000,
        setting matches Some(text) && parsed_i64(text) is None ==> window_length(setting) == 5000,
        window_length(None) == 5000,
{
    law_decimal_reads_back(n);
}

/// A window has sixteen samples for each millisecond, and samples last as long as the window
/// that they fill.
pub proof fn law_samples_fill_their_window(window_ms: i64)
    requires
        window_ms >= 0,
    ensures
        samples_in(window_ms) == 16 * window_ms,
        duration_ms(samples_in(window_ms) as nat) == window_ms,
{
    assert(INGEST_SAMPLE_RATE * window_ms / 1000 == 16 * window_ms) by (nonlinear_arith)
        requires
            INGEST_SAMPLE_RATE == 16_000,
    ;
    assert(16 * window_ms * 1000 / 16_000 == window_ms) by (nonlinear_arith);
}

/// Sound that ended now started as long ago as it lasts, and not before the meeting did.
pub proof fn law_chunk_starts_as_long_ago_as_it_lasts(end_ms: i64, samples: nat)
    ensures
        chunk_start(end_ms, samples) >= 0,
        duration_ms(samples) <= end_ms ==> chunk_start(end_ms, samples) + duration_ms(samples)
            == end_ms,
        duration_ms(samples) > end_ms ==> chunk_start(end_ms, samples) == 0,
{
}

/// The end of a track is handed on whole where it lasts half a second or longer, and not at
/// all where it is shorter.
pub proof fn law_end_of_a_track_is_kept_or_dropped(samples: Seq<i16>)
    ensures
        samples.len() >= 8000 ==> tail_of(samples) == Some(samples),
        samples.len() < 8000 ==> tail_of(samples) is None,
{
}

/// A window of live sound that is taken in becomes one new segment: of this meeting, under
/// this id, with this speaker, number and path, ending now and starting as long ago as the
/// sound lasts, and without a text. It is still to be transcribed: one new job for it waits
/// from now on. What is told is the segment that was recorded. Nothing else changes.
pub proof fn law_live_sound_is_taken_in_as_it_is(
    s: StoreView,
    meeting_id: Seq<char>,
    speaker: Option<Seq<char>>,
    sequence_no: i64,
    end_ms: i64,
    samples: usize,
    id: Seq<char>,
    file_path: Seq<char>,
    job_id: Seq<char>,
    clock: ClockView,
)
    requires
        chunk_fits(end_ms, samples),
        chunk_taken_in(
            s,
            meeting_id,
            speaker,
            sequence_no,
            end_ms,
            samples as nat,
            id,
            file_path,
            job_id,
            clock,
        ).2 is Ok,
    ensures
        ({
            let done = chunk_taken_in(
                s,
                meeting_id,
                speaker,
                sequence_no,
                end_ms,
                samples as nat,
                id,
                file_path,
                job_id,
                clock,
            );
            let new = done.0;
            let g = new.segments[s.segments.len() as int];
            let job = new.jobs[s.jobs.len() as int];
            let lasts = samples as int / 16;
            &&& done.1 == seq![
                segment_recorded(meeting_id, id, sequence_no, g.start_ms, end_ms),
            ]
            &&& new.segments.len() == s.segments.len() + 1
            &&& forall|i: int|
                0 <= i < s.segments.len() ==> new.segments[i] == #[trigger] s.segments[i]
            &&& g.id == id
            &&& g.meeting_id == meeting_id
            &&& g.speaker_id == speaker
            &&& g.sequence_no == sequence_no
            &&& g.end_ms == end_ms
            &&& g.start_ms == if end_ms >= lasts {
                end_ms - lasts
            } else {
                0
            }
            &&& g.file_path == file_path
            &&& g.transcript is None
            &&& g.status == SegmentStatus::Uploaded
            &&& new.jobs.len() == s.jobs.len() + 1
            &&& forall|i: int| 0 <= i < s.jobs.len() ==> new.jobs[i] == #[trigger] s.jobs[i]
            &&& job.id == job_id && job.job_type == JobTypeView::Transcribe && job.meeting_id
                == meeting_id && job.target_id == Some(id) && job.status == JobStatus::Pending
                && job.retry_count == 0 && job.available_at == clock.now && job.error_message
                is None
            &&& new.meetings == s.meetings && new.speakers == s.speakers && new.summaries
                == s.summaries && new.boards == s.boards && new.board_versions == s.board_versions
        }),
{
    assert(duration_ms(samples as nat) == samples as int / 16);
}

/// Someone who is heard for the first time is the meeting's speaker of their name, and is
/// remembered as such; someone who was heard before is the speaker that they were, whatever
/// they are called now. Nobody else is forgotten or becomes another.
pub proof fn law_identity_is_the_speaker_of_its_name(
    known: Map<Seq<char>, Seq<char>>,
    s: StoreView,
    meeting_id: Seq<char>,
    identity: Seq<char>,
    name: Seq<char>,
    id: Seq<char>,
    other: Seq<char>,
)
    requires
        identity_speaker(known, s, meeting_id, identity, name, id).2 is Ok,
    ensures
        identity_speaker(known, s, meeting_id, identity, name, id).0.contains_key(identity),
        identity_speaker(known, s, meeting_id, identity, name, id).2 == Ok::<
            Seq<char>,
            AppErrorView,
        >(identity_speaker(known, s, meeting_id, identity, name, id).0[identity]),
        known.contains_key(identity) ==> identity_speaker(
            known,
            s,
            meeting_id,
            identity,
            name,
            id,
        ) == (known, s, Ok::<Seq<char>, AppErrorView>(known[identity])),
        !known.contains_key(identity) ==> {
            let (then, new, _) = identity_speaker(known, s, meeting_id, identity, name, id);
            exists|k: int|
                0 <= k < new.speakers.len() && (#[trigger] new.speakers[k]).id == then[identity]
                    && new.speakers[k].meeting_id == meeting_id && new.speakers[k].name == name
        },
        other != identity ==> {
            let then = identity_speaker(known, s, meeting_id, identity, name, id).0;
            then.contains_key(other) == known.contains_key(other) && (known.contains_key(other)
                ==> then[other] == known[other])
        },
{
    if !known.contains_key(identity) {
        law_speaker_of_a_name(s, meeting_id, name, id);
        let (with_speaker, given) = speaker_ensured(s, meeting_id, name, id)->Ok_0;
        let k = choose|k: int|
            0 <= k < with_speaker.speakers.len() && (#[trigger] with_speaker.speakers[k]).id
                == given && with_speaker.speakers[k].meeting_id == meeting_id
                && with_speaker.speakers[k].name == name;
        let (then, new, _) = identity_speaker(known, s, meeting_id, identity, name, id);
        assert(new == with_speaker);
        assert(then[identity] == given);
        assert(new.speakers[k].id == then[identity]);
    }
}

/// A participant is called by their name, and by their identity only where they have none.
pub proof fn law_participant_is_called_by_name(identity: Seq<char>, name: Seq<char>)
    ensures
        name.len() > 0 ==> called(identity, name) == name,
        called(identity, Seq::empty()) == identity,
{
}

/// One bot listens to a meeting: the first is started, another for the same meeting is not,
/// and the bots of other meetings are left alone.
pub proof fn law_one_bot_listens_to_a_meeting<T>(
    running: Map<Seq<char>, T>,
    meeting_id: Seq<char>,
    signal: T,
    other_signal: T,
    other: Seq<char>,
)
    ensures
        ({
            let (then, started) = bot_started(running, meeting_id, signal);
            &&& started <==> !running.contains_key(meeting_id)
            &&& then.contains_key(meeting_id)
            &&& started ==> then[meeting_id] == signal
            &&& !started ==> then == running
            &&& other != meeting_id ==> then.contains_key(other) == running.contains_key(other) && (
            running.contains_key(other) ==> then[other] == running[other])
            &&& bot_started(then, meeting_id, other_signal) == (then, false)
        }),
{
}

/// After a failure a bot waits two seconds for each failure in a row, and two seconds where
/// it got into the room.
pub proof fn law_pauses_grow(attempts: int)
    ensures
        attempts >= 1 ==> pause_seconds(attempts) == 2 * attempts,
        pause_seconds(0) == 2,
{
}

/// It can be reckoned when sound started, wherever its end is not before the meeting's start
/// and it is not longer than can be counted.
pub proof fn law_ordinary_chunks_can_be_reckoned(end_ms: i64, samples: usize)
    requires
        0 <= end_ms,
        samples <= 0x10_0000_0000_0000,
    ensures
        chunk_fits(end_ms, samples),
{
}

/// It can be reckoned when sound started exactly if a thousand times its samples can be
/// counted, and the time of its start can.
pub proof fn law_when_a_chunk_can_be_reckoned(end_ms: i64, samples: usize)
    ensures
        chunk_fits(end_ms, samples) <==> samples <= 9_223_372_036_854_775 && end_ms - samples as int
            / 16 >= i64::MIN,
{
    assert(duration_ms(samples as nat) == samples as int / 16);
}

} // verus!
