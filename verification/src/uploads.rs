//! Uploads: the form that comes with a segment, and what makes it acceptable.
use vstd::prelude::*;

use crate::error::{bad_request, AppError, AppErrorView};
use crate::number::{decimal, format_u64, parse_i64, parsed_i64};
use crate::text::{
    clean_option, cleaned, concat3, file_name_char, opt_str, opt_text, sanitize_filename, text_eq,
    trimmed,
};

verus! {

/// The form that comes with a segment, as far as it has been read.
#[derive(Debug, PartialEq)]
pub struct UploadForm {
    pub speaker_id: Option<String>,
    pub speaker_name: Option<String>,
    pub sequence_no: Option<i64>,
    pub start_ms: Option<i64>,
    pub end_ms: Option<i64>,
    pub transcript: Option<String>,
    /// The name under which the audio was sent.
    pub file_name: String,
    pub audio: Option<Vec<u8>>,
}

/// The model of an [`UploadForm`].
pub struct UploadFormView {
    pub speaker_id: Option<Seq<char>>,
    pub speaker_name: Option<Seq<char>>,
    pub sequence_no: Option<i64>,
    pub start_ms: Option<i64>,
    pub end_ms: Option<i64>,
    pub transcript: Option<Seq<char>>,
    pub file_name: Seq<char>,
    pub audio: Option<Seq<u8>>,
}

/// The model of optional bytes.
pub open spec fn opt_bytes(bytes: Option<Vec<u8>>) -> Option<Seq<u8>> {
    match bytes {
        Some(bytes) => Some(bytes@),
        None => None,
    }
}

impl View for UploadForm {
    type V = UploadFormView;

    open spec fn view(&self) -> UploadFormView {
        UploadFormView {
            speaker_id: opt_text(self.speaker_id),
            speaker_name: opt_text(self.speaker_name),
            sequence_no: self.sequence_no,
            start_ms: self.start_ms,
            end_ms: self.end_ms,
            transcript: opt_text(self.transcript),
            file_name: self.file_name@,
            audio: opt_bytes(self.audio),
        }
    }
}

/// A form without fields.
pub open spec fn empty_form() -> UploadFormView {
    UploadFormView {
        speaker_id: None,
        speaker_name: None,
        sequence_no: None,
        start_ms: None,
        end_ms: None,
        transcript: None,
        file_name: "audio.bin"@,
        audio: None,
    }
}

/// A form with one more field. A field that came before under the same name is
/// replaced; a number that cannot be read counts as left out, and so does a field
/// of an unknown name.
pub open spec fn with_field(form: UploadFormView, name: Seq<char>, value: Seq<char>) -> UploadFormView {
    if name == "speaker_id"@ {
        UploadFormView { speaker_id: Some(value), ..form }
    } else if name == "speaker_name"@ {
        UploadFormView { speaker_name: Some(value), ..form }
    } else if name == "sequence_no"@ {
        UploadFormView { sequence_no: parsed_i64(value), ..form }
    } else if name == "start_ms"@ {
        UploadFormView { start_ms: parsed_i64(value), ..form }
    } else if name == "end_ms"@ {
        UploadFormView { end_ms: parsed_i64(value), ..form }
    } else if name == "transcript"@ {
        UploadFormView { transcript: Some(value), ..form }
    } else {
        form
    }
}

/// A form with the audio, and the name under which it was sent where it has one.
pub open spec fn with_audio(
    form: UploadFormView,
    file_name: Option<Seq<char>>,
    bytes: Seq<u8>,
) -> UploadFormView {
    UploadFormView {
        file_name: match file_name {
            Some(name) => name,
            None => "audio.bin"@,
        },
        audio: Some(bytes),
        ..form
    }
}

/// A segment as it was uploaded, in an acceptable form.
#[derive(Debug, PartialEq)]
pub struct Upload {
    pub speaker_id: Option<String>,
    pub speaker_name: Option<String>,
    pub sequence_no: i64,
    pub start_ms: i64,
    pub end_ms: i64,
    pub transcript: Option<String>,
    pub file_name: String,
    pub audio: Option<Vec<u8>>,
}

/// The model of an [`Upload`].
pub struct UploadView {
    pub speaker_id: Option<Seq<char>>,
    pub speaker_name: Option<Seq<char>>,
    pub sequence_no: i64,
    pub start_ms: i64,
    pub end_ms: i64,
    pub transcript: Option<Seq<char>>,
    pub file_name: Seq<char>,
    pub audio: Option<Seq<u8>>,
}

impl View for Upload {
    type V = UploadView;

    open spec fn view(&self) -> UploadView {
        UploadView {
            speaker_id: opt_text(self.speaker_id),
            speaker_name: opt_text(self.speaker_name),
            sequence_no: self.sequence_no,
            start_ms: self.start_ms,
            end_ms: self.end_ms,
            transcript: opt_text(self.transcript),
            file_name: self.file_name@,
            audio: opt_bytes(self.audio),
        }
    }
}

/// Bytes, unless there are none.
pub open spec fn non_empty(bytes: Option<Seq<u8>>) -> Option<Seq<u8>> {
    match bytes {
        Some(bytes) => if bytes.len() == 0 {
            None
        } else {
            Some(bytes)
        },
        None => None,
    }
}

/// What a form says, or the first reason for which it is not acceptable.
pub open spec fn checked(form: UploadFormView, max_bytes: usize) -> Result<UploadView, AppErrorView> {
    let text = cleaned(form.transcript);
    let audio = non_empty(form.audio);
    if form.sequence_no is None {
        Err(AppErrorView::BadRequest("sequence_no is required"@))
    } else if form.start_ms is None {
        Err(AppErrorView::BadRequest("start_ms is required"@))
    } else if form.end_ms is None {
        Err(AppErrorView::BadRequest("end_ms is required"@))
    } else if audio is None && text is None {
        Err(AppErrorView::BadRequest("audio or transcript is required"@))
    } else if form.end_ms.unwrap() <= form.start_ms.unwrap() {
        Err(AppErrorView::BadRequest("end_ms must be greater than start_ms"@))
    } else if form.sequence_no.unwrap() < 0 || form.start_ms.unwrap() < 0 {
        Err(
            AppErrorView::BadRequest("sequence_no, start_ms and end_ms must be non-negative"@),
        )
    } else if audio is Some && audio.unwrap().len() > max_bytes {
        Err(
            AppErrorView::BadRequest(
                "audio exceeds "@ + decimal(max_bytes as int) + " byte upload limit"@,
            ),
        )
    } else {
        Ok(
            UploadView {
                speaker_id: form.speaker_id,
                speaker_name: form.speaker_name,
                sequence_no: form.sequence_no.unwrap(),
                start_ms: form.start_ms.unwrap(),
                end_ms: form.end_ms.unwrap(),
                transcript: text,
                file_name: form.file_name,
                audio,
            },
        )
    }
}

/// The name of the file in which the audio of a segment is stored: the segment's
/// id, and as much of the name under which it was sent as is safe.
pub open spec fn stored_name(id: Seq<char>, file_name: Seq<char>) -> Seq<char> {
    let safe = file_name.filter(|c: char| file_name_char(c));
    id + "-"@ + if safe.len() == 0 {
        "audio.bin"@
    } else {
        safe
    }
}

fn drop_empty(bytes: Option<Vec<u8>>) -> (kept: Option<Vec<u8>>)
    ensures
        opt_bytes(kept) == non_empty(opt_bytes(bytes)),
{
    match bytes {
        Some(bytes) => if bytes.len() == 0 {
            None
        } else {
            Some(bytes)
        },
        None => None,
    }
}

impl UploadForm {
    /// A form without fields.
    pub fn new() -> (form: UploadForm)
        ensures
            form@ == empty_form(),
    {
        UploadForm {
            speaker_id: None,
            speaker_name: None,
            sequence_no: None,
            start_ms: None,
            end_ms: None,
            transcript: None,
            file_name: "audio.bin".to_owned(),
            audio: None,
        }
    }

    /// Reads a field that is a text.
    pub fn take_field(&mut self, name: &str, value: String)
        ensures
            final(self)@ == with_field(old(self)@, name@, value@),
    {
        if text_eq(name, "speaker_id") {
            self.speaker_id = Some(value);
        } else if text_eq(name, "speaker_name") {
            self.speaker_name = Some(value);
        } else if text_eq(name, "sequence_no") {
            self.sequence_no = parse_i64(value.as_str());
        } else if text_eq(name, "start_ms") {
            self.start_ms = parse_i64(value.as_str());
        } else if text_eq(name, "end_ms") {
            self.end_ms = parse_i64(value.as_str());
        } else if text_eq(name, "transcript") {
            self.transcript = Some(value);
        }
    }

    /// Reads the audio and the name under which it was sent.
    pub fn take_audio(&mut self, file_name: Option<&str>, bytes: Vec<u8>)
        ensures
            final(self)@ == with_audio(old(self)@, opt_str(file_name), bytes@),
    {
        self.file_name = match file_name {
            Some(name) => name.to_owned(),
            None => "audio.bin".to_owned(),
        };
        self.audio = Some(bytes);
    }

    /// What this form says, or the first reason for which it is not acceptable.
    pub fn check(self, max_bytes: usize) -> (upload: Result<Upload, AppError>)
        ensures
            checked(self@, max_bytes) == match upload {
                Ok(upload) => Ok(upload@),
                Err(e) => Err(e@),
            },
    {
        let sequence_no: i64 = match self.sequence_no {
            Some(n) => n,
            None => return Err(bad_request("sequence_no is required")),
        };
        let start_ms: i64 = match self.start_ms {
            Some(n) => n,
            None => return Err(bad_request("start_ms is required")),
        };
        let end_ms: i64 = match self.end_ms {
            Some(n) => n,
            None => return Err(bad_request("end_ms is required")),
        };
        let transcript = clean_option(self.transcript);
        let audio = drop_empty(self.audio);
        if audio.is_none() && transcript.is_none() {
            return Err(bad_request("audio or transcript is required"));
        }
        if end_ms <= start_ms {
            return Err(bad_request("end_ms must be greater than start_ms"));
        }
        if sequence_no < 0 || start_ms < 0 {
            return Err(bad_request("sequence_no, start_ms and end_ms must be non-negative"));
        }
        let length: usize = match &audio {
            Some(bytes) => bytes.len(),
            None => 0,
        };
        if length > max_bytes {
            return Err(
                AppError::BadRequest(
                    concat3(
                        "audio exceeds ",
                        format_u64(max_bytes as u64).as_str(),
                        " byte upload limit",
                    ),
                ),
            );
        }
        Ok(
            Upload {
                speaker_id: self.speaker_id,
                speaker_name: self.speaker_name,
                sequence_no,
                start_ms,
                end_ms,
                transcript,
                file_name: self.file_name,
                audio,
            },
        )
    }
}

/// The name of the file in which the audio of a segment is stored.
pub fn stored_file_name(id: &str, file_name: &str) -> (name: String)
    ensures
        name@ == stored_name(id@, file_name@),
{
    let safe = sanitize_filename(file_name);
    if safe.as_str().is_empty() {
        concat3(id, "-", "audio.bin")
    } else {
        concat3(id, "-", safe.as_str())
    }
}

/// What an acceptable form says: a span of time that does not start before the
/// meeting does, audio that is not empty and not too long, a text that is not
/// blank, and one of the two at least.
pub proof fn law_checked_upload_is_valid(form: UploadFormView, max_bytes: usize)
    requires
        checked(form, max_bytes) is Ok,
    ensures
        ({
            let upload = checked(form, max_bytes)->Ok_0;
            &&& 0 <= upload.start_ms < upload.end_ms
            &&& 0 <= upload.sequence_no
            &&& upload.audio is Some || upload.transcript is Some
            &&& (upload.audio matches Some(bytes) ==> 0 < bytes.len() <= max_bytes)
            &&& (upload.transcript matches Some(text) ==> 0 < text.len())
        }),
{
}

/// Where fields of different names are read in another order, the form says the same.
pub proof fn law_field_order_does_not_matter(
    form: UploadFormView,
    name: Seq<char>,
    value: Seq<char>,
    other_name: Seq<char>,
    other_value: Seq<char>,
)
    requires
        name != other_name,
    ensures
        with_field(with_field(form, name, value), other_name, other_value) == with_field(
            with_field(form, other_name, other_value),
            name,
            value,
        ),
{
    reveal_strlit("speaker_id");
    reveal_strlit("speaker_name");
    reveal_strlit("sequence_no");
    reveal_strlit("start_ms");
    reveal_strlit("end_ms");
    reveal_strlit("transcript");
    assert("speaker_id"@.len() == 10 && "speaker_name"@.len() == 12 && "sequence_no"@.len() == 11
        && "start_ms"@.len() == 8 && "end_ms"@.len() == 6 && "transcript"@.len() == 10);
    assert("speaker_id"@[0] == 's' && "transcript"@[0] == 't');
}

/// Each field of a form sets what it names and leaves all else as it was: a text is kept
/// as it is given, a number is what the text stands for, and a field of another name
/// sets nothing.
pub proof fn law_field_sets_its_own(form: UploadFormView, name: Seq<char>, value: Seq<char>)
    ensures
        ({
            let new = with_field(form, name, value);
            &&& new.speaker_id == if name == "speaker_id"@ {
                Some(value)
            } else {
                form.speaker_id
            }
            &&& new.speaker_name == if name == "speaker_name"@ {
                Some(value)
            } else {
                form.speaker_name
            }
            &&& new.sequence_no == if name == "sequence_no"@ {
                parsed_i64(value)
            } else {
                form.sequence_no
            }
            &&& new.start_ms == if name == "start_ms"@ {
                parsed_i64(value)
            } else {
                form.start_ms
            }
            &&& new.end_ms == if name == "end_ms"@ {
                parsed_i64(value)
            } else {
                form.end_ms
            }
            &&& new.transcript == if name == "transcript"@ {
                Some(value)
            } else {
                form.transcript
            }
            &&& new.file_name == form.file_name
            &&& new.audio == form.audio
        }),
{
    lemma_form_names();
}

proof fn lemma_form_names()
    ensures
        "speaker_id"@ != "transcript"@,
        "speaker_id"@.len() == 10,
        "speaker_name"@.len() == 12,
        "sequence_no"@.len() == 11,
        "start_ms"@.len() == 8,
        "end_ms"@.len() == 6,
        "transcript"@.len() == 10,
{
    reveal_strlit("speaker_id");
    reveal_strlit("speaker_name");
    reveal_strlit("sequence_no");
    reveal_strlit("start_ms");
    reveal_strlit("end_ms");
    reveal_strlit("transcript");
    assert("speaker_id"@[0] == 's' && "transcript"@[0] == 't');
}

/// A form is acceptable exactly if it has the three numbers, none of them negative and
/// the end behind the start, has audio that is not empty or a text that is not blank, and
/// its audio is not longer than allowed. What it then says is what its fields say: the
/// text trimmed, or none where it is blank, and the audio, or none where it is empty.
pub proof fn law_acceptable_form_says_what_its_fields_say(form: UploadFormView, max_bytes: usize)
    ensures
        checked(form, max_bytes) is Ok <==> {
            &&& form.sequence_no matches Some(n) && n >= 0
            &&& form.start_ms matches Some(start) && start >= 0
            &&& form.end_ms matches Some(end) && end > form.start_ms.unwrap()
            &&& (form.audio matches Some(bytes) && bytes.len() > 0) || (
            form.transcript matches Some(text) && trimmed(text).len() > 0)
            &&& form.audio matches Some(bytes) ==> bytes.len() <= max_bytes
        },
        checked(form, max_bytes) matches Ok(upload) ==> {
            &&& upload.speaker_id == form.speaker_id
            &&& upload.speaker_name == form.speaker_name
            &&& Some(upload.sequence_no) == form.sequence_no
            &&& Some(upload.start_ms) == form.start_ms
            &&& Some(upload.end_ms) == form.end_ms
            &&& upload.transcript == match form.transcript {
                Some(text) => if trimmed(text).len() == 0 {
                    None
                } else {
                    Some(trimmed(text))
                },
                None => None,
            }
            &&& upload.file_name == form.file_name
            &&& upload.audio == match form.audio {
                Some(bytes) => if bytes.len() == 0 {
                    None
                } else {
                    Some(bytes)
                },
                None => None,
            }
        },
        checked(form, max_bytes) matches Err(e) ==> e is BadRequest,
{
}

/// The name of a stored file starts with the id of its segment, so that the files of two
/// segments with ids of one length have different names; it ends with what is safe of
/// the name under which the audio was sent, or with `audio.bin` where nothing of it is.
pub proof fn law_stored_name_tells_its_segment(
    id: Seq<char>,
    file_name: Seq<char>,
    other_id: Seq<char>,
    other_name: Seq<char>,
)
    ensures
        stored_name(id, file_name).take(id.len() as int) == id,
        stored_name(id, file_name)[id.len() as int] == '-',
        stored_name(id, file_name).skip(id.len() as int + 1) == (if forall|i: int|
            0 <= i < file_name.len() ==> !file_name_char(#[trigger] file_name[i]) {
            "audio.bin"@
        } else {
            file_name.filter(|c: char| file_name_char(c))
        }),
        id.len() == other_id.len() && id != other_id ==> stored_name(id, file_name) != stored_name(
            other_id,
            other_name,
        ),
{
    reveal_strlit("-");
    let p = |c: char| file_name_char(c);
    let safe = file_name.filter(p);
    let name = stored_name(id, file_name);
    assert(name.take(id.len() as int) =~= id);
    assert(name[id.len() as int] == "-"@[0]);
    let tail = if safe.len() == 0 {
        "audio.bin"@
    } else {
        safe
    };
    assert(name.skip(id.len() as int + 1) =~= tail);
    if forall|i: int| 0 <= i < file_name.len() ==> !file_name_char(#[trigger] file_name[i]) {
        if safe.len() > 0 {
            file_name.lemma_filter_pred(p, 0);
            assert(safe.contains(safe[0]));
            file_name.lemma_filter_contains_rev(p, safe[0]);
        }
    } else {
        let i = choose|i: int| 0 <= i < file_name.len() && file_name_char(#[trigger] file_name[i]);
        file_name.lemma_filter_contains(p, i);
    }
    let other = stored_name(other_id, other_name);
    assert(other.take(other_id.len() as int) =~= other_id);
}

/// The audio of a form is what was sent last, under the name that came with it, or under
/// `audio.bin` where none came; it leaves all fields as they were, and they leave it.
pub proof fn law_audio_is_apart_from_the_fields(
    form: UploadFormView,
    file_name: Option<Seq<char>>,
    bytes: Seq<u8>,
    name: Seq<char>,
    value: Seq<char>,
)
    ensures
        ({
            let new = with_audio(form, file_name, bytes);
            &&& new.audio == Some(bytes)
            &&& file_name matches Some(sent) ==> new.file_name == sent
            &&& file_name is None ==> new.file_name == "audio.bin"@
            &&& new.speaker_id == form.speaker_id && new.speaker_name == form.speaker_name
                && new.sequence_no == form.sequence_no && new.start_ms == form.start_ms
                && new.end_ms == form.end_ms && new.transcript == form.transcript
            &&& with_field(new, name, value) == with_audio(
                with_field(form, name, value),
                file_name,
                bytes,
            )
        }),
{
}

/// A form without fields has none of them, and says nothing that is acceptable.
pub proof fn law_new_form_says_nothing(max_bytes: usize)
    ensures
        ({
            let form = empty_form();
            &&& form.speaker_id is None && form.speaker_name is None && form.sequence_no is None
                && form.start_ms is None && form.end_ms is None && form.transcript is None
                && form.audio is None
            &&& form.file_name == "audio.bin"@
            &&& checked(form, max_bytes) is Err
        }),
{
}

/// What a refused form is refused for: the first that is wrong with it, of a missing number,
/// the missing audio and text, an end that is not behind the start, a negative number, and
/// audio that is too long.
pub proof fn law_why_a_form_is_refused(form: UploadFormView, max_bytes: usize)
    ensures
        ({
            let said = match checked(form, max_bytes) {
                Err(AppErrorView::BadRequest(reason)) => Some(reason),
                _ => None,
            };
            let numbers = form.sequence_no is Some && form.start_ms is Some && form.end_ms is Some;
            let something = (form.audio matches Some(bytes) && bytes.len() > 0) || (
            form.transcript matches Some(text) && trimmed(text).len() > 0);
            let ordered = form.end_ms.unwrap() > form.start_ms.unwrap();
            let negative = form.sequence_no.unwrap() < 0 || form.start_ms.unwrap() < 0;
            let long = form.audio matches Some(bytes) && bytes.len() > max_bytes;
            &&& form.sequence_no is None ==> said == Some("sequence_no is required"@)
            &&& form.sequence_no is Some && form.start_ms is None ==> said == Some(
                "start_ms is required"@,
            )
            &&& form.sequence_no is Some && form.start_ms is Some && form.end_ms is None ==> said
                == Some("end_ms is required"@)
            &&& numbers && !something ==> said == Some("audio or transcript is required"@)
            &&& numbers && something && !ordered ==> said == Some(
                "end_ms must be greater than start_ms"@,
            )
            &&& numbers && something && ordered && negative ==> said == Some(
                "sequence_no, start_ms and end_ms must be non-negative"@,
            )
            &&& numbers && something && ordered && !negative && long ==> said == Some(
                "audio exceeds "@ + decimal(max_bytes as int) + " byte upload limit"@,
            )
        }),
{
}

} // verus!
