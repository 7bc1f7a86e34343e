//! Settings of the service, and what its database needs before it is used.
use vstd::prelude::*;

use crate::number::{decimal, law_unsigned_decimal_reads_back, parse_usize, parsed_usize};
use crate::text::{
    contains, contains_text, law_trimmed_pieces, opt_str, opt_text, split_on, split_trimmed,
    text_eq, texts, trimmed, trimmed_pieces,
};

verus! {

/// How many bytes an upload may have where nothing else is set.
pub const DEFAULT_MAX_UPLOAD_BYTES: usize = 104_857_600;

/// How many bytes an upload may have: what is set, if it is a number above zero.
pub open spec fn upload_limit(setting: Option<Seq<char>>) -> usize {
    match setting {
        Some(text) => match parsed_usize(text) {
            Some(n) => if n > 0 {
                n
            } else {
                DEFAULT_MAX_UPLOAD_BYTES
            },
            None => DEFAULT_MAX_UPLOAD_BYTES,
        },
        None => DEFAULT_MAX_UPLOAD_BYTES,
    }
}

/// How many bytes an upload may have.
pub fn max_upload_bytes(setting: Option<&str>) -> (n: usize)
    ensures
        n == upload_limit(opt_str(setting)),
        n > 0,
{
    match setting {
        Some(text) => match parse_usize(text) {
            Some(n) => if n > 0 {
                n
            } else {
                DEFAULT_MAX_UPLOAD_BYTES
            },
            None => DEFAULT_MAX_UPLOAD_BYTES,
        },
        None => DEFAULT_MAX_UPLOAD_BYTES,
    }
}

/// Where the service listens: where it is set to, or at every address of the machine.
pub open spec fn address_of(setting: Option<Seq<char>>) -> Seq<char> {
    match setting {
        Some(address) => address,
        None => "0.0.0.0:3000"@,
    }
}

/// Where the service listens: where it is set to, or at every address of the machine.
pub fn listen_address(setting: Option<String>) -> (address: String)
    ensures
        address@ == address_of(opt_text(setting)),
{
    match setting {
        Some(address) => address,
        None => "0.0.0.0:3000".to_owned(),
    }
}

/// The statements of a script, which are separated by semicolons.
pub open spec fn statements_of(script: Seq<char>) -> Seq<Seq<char>> {
    trimmed_pieces(script, seq![';'])
}

/// The statements of a script, which are separated by semicolons.
pub fn statements(script: &str) -> (list: Vec<String>)
    ensures
        texts(list@) == statements_of(script@),
{
    let mut separators: Vec<char> = Vec::new();
    separators.push(';');
    assert(separators@ =~= seq![';']);
    split_trimmed(script, &separators)
}

/// Whether the table of meetings, with these columns, still lacks the one for the
/// length of a window.
pub fn lacks_window_column(columns: &Vec<String>) -> (lacks: bool)
    ensures
        lacks == !texts(columns@).contains("summary_window_ms"@),
{
    let mut i: usize = 0;
    while i < columns.len()
        invariant
            i <= columns@.len(),
            forall|j: int| 0 <= j < i ==> texts(columns@)[j] != "summary_window_ms"@,
        decreases columns@.len() - i,
    {
        if text_eq(columns[i].as_str(), "summary_window_ms") {
            assert(texts(columns@)[i as int] == "summary_window_ms"@);
            return false;
        }
        i += 1;
    }
    true
}

/// Whether the table of jobs, with this definition, still lets only one meeting
/// have a job for a target.
pub fn has_old_job_key(definition: &str) -> (old_key: bool)
    ensures
        old_key == contains(definition@, "UNIQUE(job_type, target_id)"@),
{
    contains_text(definition, "UNIQUE(job_type, target_id)")
}

/// An upload may be as long as is set, where that is a number above zero; where it is not,
/// or where nothing is set, a hundred mebibytes.
pub proof fn law_upload_limit_is_what_is_set(n: usize, setting: Option<Seq<char>>)
    ensures
        n > 0 ==> upload_limit(Some(decimal(n as int))) == n,
        upload_limit(Some(decimal(0))) == 100 * 1024 * 1024,
        upload_limit(None) == 100 * 1024 * 1024,
        setting matches Some(text) && parsed_usize(text) is None ==> upload_limit(setting) == 100
            * 1024 * 1024,
        upload_limit(setting) > 0,
{
    law_unsigned_decimal_reads_back(n);
    law_unsigned_decimal_reads_back(0);
}

/// The service listens where it is set to, and at a port of every address otherwise.
pub proof fn law_service_listens_where_it_is_set(address: Seq<char>)
    ensures
        address_of(Some(address)) == address,
        address_of(None) == "0.0.0.0:3000"@,
{
}

/// Every statement of a script is run, trimmed, and nothing else is: each piece between
/// semicolons that is not blank is one of the statements, and each of them is such a piece.
pub proof fn law_statements_are_the_pieces(script: Seq<char>)
    ensures
        ({
            let pieces = split_on(script, seq![';']);
            let list = statements_of(script);
            &&& forall|i: int|
                0 <= i < pieces.len() && trimmed(#[trigger] pieces[i]).len() > 0 ==> list.contains(
                    trimmed(pieces[i]),
                )
            &&& forall|i: int|
                0 <= i < list.len() ==> (#[trigger] list[i]).len() > 0 && exists|k: int|
                    0 <= k < pieces.len() && trimmed(#[trigger] pieces[k]) == list[i]
        }),
{
    law_trimmed_pieces(script, seq![';']);
}

} // verus!
