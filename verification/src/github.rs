//! The remote fetch coordinator's decision logic: parameter validation, the
//! write-once fetch cache, bounded retry with a doubling delay, the iterative
//! directory traversal, content decoding, and the assembly of fetched files
//! into document entities.
//!
//! The network calls themselves are asynchronous and live outside the
//! library; they hand plain values in and take plain values back.

use base64::Engine;
use vstd::hash_map::StringHashMap;
use vstd::prelude::*;

use crate::document::{build_document, derived_title, summary_of, DocMeta, Document};
use crate::text::{blank, is_blank};

verus! {

/// How many remote fetches may be in flight at once, and the size of the
/// chunks a scan is processed in.
pub const MAX_CONCURRENT_FETCHES: usize = 5;

/// How often a failed fetch is retried after its first attempt.
pub const MAX_FETCH_RETRIES: u64 = 3;

// ---------------------------------------------------------------------------
// Parameter validation.
// ---------------------------------------------------------------------------

/// Why a coordinator's parameters are rejected.
#[derive(Debug, PartialEq, Eq, Structural)]
pub enum ValidationError {
    EmptyOwner,
    EmptyRepo,
    EmptyToken,
}

/// The validation rule: owner and repository must not be blank, and a
/// credential, when one is supplied, must not be blank either.
pub open spec fn connection_check(
    owner: Seq<char>,
    repo: Seq<char>,
    token: Option<Seq<char>>,
) -> Result<(), ValidationError> {
    if is_blank(owner) {
        Err(ValidationError::EmptyOwner)
    } else if is_blank(repo) {
        Err(ValidationError::EmptyRepo)
    } else if token is Some && is_blank(token->0) {
        Err(ValidationError::EmptyToken)
    } else {
        Ok(())
    }
}

/// Validates the coordinator's construction parameters.
pub fn validate_connection(owner: &str, repo: &str, token: Option<&str>) -> (r: Result<
    (),
    ValidationError,
>)
    ensures
        r == connection_check(
            owner@,
            repo@,
            match token {
                Some(t) => Some(t@),
                None => None,
            },
        ),
{
    if blank(owner) {
        return Err(ValidationError::EmptyOwner);
    }
    if blank(repo) {
        return Err(ValidationError::EmptyRepo);
    }
    match token {
        Some(t) => {
            if blank(t) {
                return Err(ValidationError::EmptyToken);
            }
        },
        None => {},
    }
    Ok(())
}

// ---------------------------------------------------------------------------
// The fetch cache: one content per path, never evicted.
// ---------------------------------------------------------------------------

/// The coordinator's cache of fetched file contents, keyed by path.
pub struct FetchCache {
    entries: StringHashMap<String>,
}

impl View for FetchCache {
    type V = Map<Seq<char>, String>;

    closed spec fn view(&self) -> Map<Seq<char>, String> {
        self.entries@
    }
}

impl FetchCache {
    /// An empty cache.
    pub fn new() -> (c: Self)
        ensures
            c@ == Map::<Seq<char>, String>::empty(),
    {
        FetchCache { entries: StringHashMap::new() }
    }

    /// The cached content for `path`, if any.
    pub fn lookup<'a>(&'a self, path: &str) -> (r: Option<&'a String>)
        ensures
            match r {
                Some(c) => self@.contains_key(path@) && *c == self@[path@],
                None => !self@.contains_key(path@),
            },
    {
        self.entries.get(path)
    }

    /// Records a fetched content under its path.
    pub fn record(&mut self, path: String, content: String)
        ensures
            final(self)@ == old(self)@.insert(path@, content),
    {
        self.entries.insert(path, content);
    }
}

// ---------------------------------------------------------------------------
// Bounded retry with a doubling delay.
// ---------------------------------------------------------------------------

/// What one attempt at fetching a file came back with.
pub enum FetchOutcome {
    Success(String),
    Failure,
}

/// What the coordinator does after recording an attempt's outcome.
#[derive(Debug)]
pub enum FetchStep {
    /// The fetch succeeded with this content.
    Complete(String),
    /// Wait this many milliseconds, then attempt again.
    Retry(u64),
    /// The retry budget is spent; the file is skipped.
    Abandon,
}

/// The retry state of one file's fetch.
pub struct FetchAttempt {
    failures: u64,
}

/// The transition of the retry machine: a success completes with its content;
/// the first three failures schedule a retry after 100, 200 and 400
/// milliseconds; a fourth failure abandons the file.
pub open spec fn fetch_transition(failures: nat, outcome: FetchOutcome) -> (nat, FetchStep) {
    match outcome {
        FetchOutcome::Success(c) => (failures, FetchStep::Complete(c)),
        FetchOutcome::Failure => (
            failures + 1,
            if failures == 0 {
                FetchStep::Retry(100u64)
            } else if failures == 1 {
                FetchStep::Retry(200u64)
            } else if failures == 2 {
                FetchStep::Retry(400u64)
            } else {
                FetchStep::Abandon
            },
        ),
    }
}

impl FetchAttempt {
    /// How many attempts have failed so far.
    pub closed spec fn failures(self) -> nat {
        self.failures as nat
    }

    /// A fetch that has not been attempted yet.
    pub fn new() -> (a: Self)
        ensures
            a.failures() == 0,
    {
        FetchAttempt { failures: 0 }
    }

    /// Records one attempt's outcome and decides what follows.
    pub fn record(&mut self, outcome: FetchOutcome) -> (r: FetchStep)
        requires
            old(self).failures() <= MAX_FETCH_RETRIES,
        ensures
            (final(self).failures(), r) == fetch_transition(old(self).failures(), outcome),
    {
        match outcome {
            FetchOutcome::Success(content) => FetchStep::Complete(content),
            FetchOutcome::Failure => {
                let before = self.failures;
                self.failures = self.failures + 1;
                if before == 0 {
                    FetchStep::Retry(100)
                } else if before == 1 {
                    FetchStep::Retry(200)
                } else if before == 2 {
                    FetchStep::Retry(400)
                } else {
                    FetchStep::Abandon
                }
            },
        }
    }
}

/// A fetch that fails twice and succeeds on its third attempt waits 100 and
/// then 200 milliseconds, is reported as a successful fetch, and is then
/// served from the cache once its content is recorded there.
pub proof fn fetch_third_attempt_succeeds(c: String, cache: Map<Seq<char>, String>, p: Seq<char>)
    ensures
        ({
            let (f1, r1) = fetch_transition(0, FetchOutcome::Failure);
            let (f2, r2) = fetch_transition(f1, FetchOutcome::Failure);
            let (f3, r3) = fetch_transition(f2, FetchOutcome::Success(c));
            &&& r1 == FetchStep::Retry(100u64)
            &&& r2 == FetchStep::Retry(200u64)
            &&& r3 == FetchStep::Complete(c)
        }),
        cache.insert(p, c).contains_key(p),
        cache.insert(p, c)[p] == c,
{
}

/// A fetch that fails on its initial attempt and on all three retries is
/// abandoned, and only then.
pub proof fn fetch_exhausted_is_abandoned()
    ensures
        ({
            let (f1, r1) = fetch_transition(0, FetchOutcome::Failure);
            let (f2, r2) = fetch_transition(f1, FetchOutcome::Failure);
            let (f3, r3) = fetch_transition(f2, FetchOutcome::Failure);
            let (f4, r4) = fetch_transition(f3, FetchOutcome::Failure);
            &&& r1 is Retry
            &&& r2 is Retry
            &&& r3 is Retry
            &&& r4 == FetchStep::Abandon
        }),
{
}

// ---------------------------------------------------------------------------
// Iterative traversal of the remote tree.
// ---------------------------------------------------------------------------

/// One entry of a remote directory listing, as the collaborator reports it.
pub struct RemoteEntry {
    pub kind: String,
    pub path: String,
    pub name: String,
}

/// The mathematical value of a listing entry.
pub ghost struct EntryMeta {
    pub kind: Seq<char>,
    pub path: Seq<char>,
    pub name: Seq<char>,
}

impl View for RemoteEntry {
    type V = EntryMeta;

    open spec fn view(&self) -> EntryMeta {
        EntryMeta { kind: self.kind@, path: self.path@, name: self.name@ }
    }
}

impl DeepView for RemoteEntry {
    type V = EntryMeta;

    open spec fn deep_view(&self) -> EntryMeta {
        self.view()
    }
}

/// The paths of the file entries of a listing, in order.
pub open spec fn file_paths(es: Seq<EntryMeta>) -> Seq<Seq<char>>
    decreases es.len(),
{
    if es.len() == 0 {
        Seq::empty()
    } else {
        let front = file_paths(es.drop_last());
        if es.last().kind == "file"@ {
            front.push(es.last().path)
        } else {
            front
        }
    }
}

/// The paths of the directory entries of a listing, in order.
pub open spec fn dir_paths(es: Seq<EntryMeta>) -> Seq<Seq<char>>
    decreases es.len(),
{
    if es.len() == 0 {
        Seq::empty()
    } else {
        let front = dir_paths(es.drop_last());
        if es.last().kind == "dir"@ {
            front.push(es.last().path)
        } else {
            front
        }
    }
}

/// The worklist state of one scan of the remote tree.
pub struct TraversalScan {
    pending: Vec<String>,
    files: Vec<String>,
}

impl TraversalScan {
    /// The directories still to list, in stack order.
    pub closed spec fn pending_view(self) -> Seq<Seq<char>> {
        self.pending.deep_view()
    }

    /// The file paths discovered so far, in discovery order.
    pub closed spec fn files_view(self) -> Seq<Seq<char>> {
        self.files.deep_view()
    }

    /// A scan that starts at one root directory.
    pub fn new(root: String) -> (s: Self)
        ensures
            s.pending_view() == seq![root@],
            s.files_view() == Seq::<Seq<char>>::empty(),
    {
        let mut pending: Vec<String> = Vec::new();
        pending.push(root);
        let s = TraversalScan { pending, files: Vec::new() };
        proof {
            assert(s.pending_view() =~= seq![root@]);
            assert(s.files_view() =~= Seq::<Seq<char>>::empty());
        }
        s
    }

    /// Pops the next directory to list; the discovered files stay as they
    /// are. A directory whose listing fails is simply not reported back, and
    /// the scan goes on with the rest.
    pub fn next_directory(&mut self) -> (r: Option<String>)
        ensures
            final(self).files_view() == old(self).files_view(),
            match r {
                Some(d) => old(self).pending_view().len() > 0 && d@ == old(
                    self,
                ).pending_view().last() && final(self).pending_view() == old(
                    self,
                ).pending_view().drop_last(),
                None => old(self).pending_view().len() == 0 && final(self).pending_view() == old(
                    self,
                ).pending_view(),
            },
    {
        let ghost before = self.pending.deep_view();
        let r = self.pending.pop();
        proof {
            if before.len() > 0 {
                assert(self.pending.deep_view() =~= before.drop_last());
            } else {
                assert(self.pending.deep_view() =~= before);
            }
        }
        r
    }

    /// Hands out the discovered file paths, in discovery order.
    pub fn into_files(self) -> (r: Vec<String>)
        ensures
            r.deep_view() == self.files_view(),
    {
        self.files
    }

    /// Records one directory's listing: its file entries join the discovered
    /// files, its directory entries join the worklist.
    pub fn record_listing(&mut self, entries: &Vec<RemoteEntry>)
        ensures
            final(self).files_view() == old(self).files_view() + file_paths(entries.deep_view()),
            final(self).pending_view() == old(self).pending_view() + dir_paths(
                entries.deep_view(),
            ),
    {
        proof {
            reveal_strlit("file");
            reveal_strlit("dir");
        }
        let ghost es = entries.deep_view();
        let ghost files0 = self.files.deep_view();
        let ghost pending0 = self.pending.deep_view();
        assert(es.subrange(0, 0) =~= Seq::<EntryMeta>::empty());
        assert(files0 + file_paths(es.subrange(0, 0)) =~= files0);
        assert(pending0 + dir_paths(es.subrange(0, 0)) =~= pending0);
        let mut i: usize = 0;
        while i < entries.len()
            invariant
                i <= entries.len(),
                es == entries.deep_view(),
                self.files.deep_view() == files0 + file_paths(es.subrange(0, i as int)),
                self.pending.deep_view() == pending0 + dir_paths(es.subrange(0, i as int)),
            decreases entries.len() - i,
        {
            proof {
                reveal_strlit("file");
                reveal_strlit("dir");
                assert("file"@.len() == 4);
                assert("dir"@.len() == 3);
                assert("file"@ != "dir"@);
            }
            let ghost fs = self.files.deep_view();
            let ghost ps = self.pending.deep_view();
            assert(es.subrange(0, i as int + 1).drop_last() =~= es.subrange(0, i as int));
            assert(es.subrange(0, i as int + 1).last() == es[i as int]);
            let e = &entries[i];
            if crate::text::str_eq(e.kind.as_str(), "file") {
                self.files.push(e.path.clone());
                assert(self.files.deep_view() =~= fs.push(es[i as int].path));
                assert(self.files.deep_view() =~= files0 + file_paths(
                    es.subrange(0, i as int + 1),
                ));
                assert(self.pending.deep_view() =~= pending0 + dir_paths(
                    es.subrange(0, i as int + 1),
                ));
            } else if crate::text::str_eq(e.kind.as_str(), "dir") {
                self.pending.push(e.path.clone());
                assert(self.pending.deep_view() =~= ps.push(es[i as int].path));
                assert(self.pending.deep_view() =~= pending0 + dir_paths(
                    es.subrange(0, i as int + 1),
                ));
                assert(self.files.deep_view() =~= files0 + file_paths(
                    es.subrange(0, i as int + 1),
                ));
            } else {
                assert(self.files.deep_view() =~= files0 + file_paths(
                    es.subrange(0, i as int + 1),
                ));
                assert(self.pending.deep_view() =~= pending0 + dir_paths(
                    es.subrange(0, i as int + 1),
                ));
            }
            i += 1;
        }
        assert(es.subrange(0, es.len() as int) =~= es);
    }
}

/// A listing failure for one directory leaves every discovered file in
/// place, and a sibling's listing afterwards still contributes every one of
/// its files: the failed subtree is skipped, nothing else.
pub proof fn listing_failure_isolated(files0: Seq<Seq<char>>, es: Seq<EntryMeta>, f: Seq<char>)
    requires
        file_paths(es).contains(f),
    ensures
        (files0 + file_paths(es)).contains(f),
{
    let k = choose|k: int| 0 <= k < file_paths(es).len() && file_paths(es)[k] == f;
    assert((files0 + file_paths(es))[files0.len() + k] == f);
}

// ---------------------------------------------------------------------------
// Decoding remote file content.
// ---------------------------------------------------------------------------

/// Why a fetched file's raw content is rejected.
#[derive(Debug)]
pub enum ContentError {
    /// The payload is no valid base64.
    InvalidEncoding,
    /// The decoded bytes are no valid UTF-8 text.
    InvalidText,
}

#[verifier::external_type_specification]
#[verifier::external_body]
pub struct ExDecodeError(base64::DecodeError);

#[verifier::external_type_specification]
#[verifier::external_body]
pub struct ExFromUtf8Error(std::string::FromUtf8Error);

/// What base64's standard-alphabet decoder returns for given bytes, or
/// nothing where they are no valid base64.
pub uninterp spec fn b64_decoded(s: Seq<u8>) -> Option<Seq<u8>>;

/// Relies on base64's `Engine::decode` with the standard engine: the result
/// is a function of the input bytes, and an error comes exactly on invalid
/// base64.
#[verifier::external_body]
fn b64_decode(input: &Vec<u8>) -> (r: Result<Vec<u8>, base64::DecodeError>)
    ensures
        match r {
            Ok(bytes) => b64_decoded(input@) == Some(bytes@),
            Err(_) => b64_decoded(input@) is None,
        },
{
    base64::engine::general_purpose::STANDARD.decode(input.as_slice())
}

/// What UTF-8 decoding returns for given bytes, or nothing where they are no
/// valid UTF-8.
pub uninterp spec fn utf8_decoded(bytes: Seq<u8>) -> Option<Seq<char>>;

/// Relies on `String::from_utf8`: the result is a function of the bytes, and
/// an error comes exactly on invalid UTF-8.
#[verifier::external_body]
fn utf8_to_string(bytes: Vec<u8>) -> (r: Result<String, std::string::FromUtf8Error>)
    ensures
        match r {
            Ok(s) => utf8_decoded(bytes@) == Some(s@),
            Err(_) => utf8_decoded(bytes@) is None,
        },
{
    String::from_utf8(bytes)
}

/// The bytes without every newline, as the remote collaborator wraps base64
/// payloads in newlines.
pub open spec fn without_newlines(bs: Seq<u8>) -> Seq<u8>
    decreases bs.len(),
{
    if bs.len() == 0 {
        Seq::empty()
    } else {
        let front = without_newlines(bs.drop_last());
        if bs.last() == 10u8 {
            front
        } else {
            front.push(bs.last())
        }
    }
}

/// What decoding a fetched payload yields: the newline-stripped bytes are
/// base64-decoded, and the result read as UTF-8 text.
pub open spec fn decoded_content(encoded: Seq<char>) -> Result<Seq<char>, ContentError> {
    match b64_decoded(without_newlines(vstd::utf8::encode_utf8(encoded))) {
        None => Err(ContentError::InvalidEncoding),
        Some(bytes) => match utf8_decoded(bytes) {
            None => Err(ContentError::InvalidText),
            Some(text) => Ok(text),
        },
    }
}

/// Decodes one fetched payload into the file's text.
pub fn decode_remote_content(encoded: &str) -> (r: Result<String, ContentError>)
    ensures
        match r {
            Ok(s) => decoded_content(encoded@) == Ok::<Seq<char>, ContentError>(s@),
            Err(ContentError::InvalidEncoding) => decoded_content(encoded@) == Err::<
                Seq<char>,
                ContentError,
            >(ContentError::InvalidEncoding),
            Err(ContentError::InvalidText) => decoded_content(encoded@) == Err::<
                Seq<char>,
                ContentError,
            >(ContentError::InvalidText),
        },
{
    let bytes = encoded.as_bytes_vec();
    let ghost bs = bytes@;
    let mut cleaned: Vec<u8> = Vec::new();
    let mut i: usize = 0;
    assert(bs.subrange(0, 0) =~= Seq::<u8>::empty());
    assert(cleaned@ =~= Seq::<u8>::empty());
    while i < bytes.len()
        invariant
            i <= bytes.len(),
            bs == bytes@,
            cleaned@ == without_newlines(bs.subrange(0, i as int)),
        decreases bytes.len() - i,
    {
        let ghost before = cleaned@;
        assert(bs.subrange(0, i as int + 1).drop_last() =~= bs.subrange(0, i as int));
        assert(bs.subrange(0, i as int + 1).last() == bs[i as int]);
        let b = bytes[i];
        if b != 10 {
            cleaned.push(b);
        }
        i += 1;
    }
    assert(bs.subrange(0, bs.len() as int) =~= bs);
    match b64_decode(&cleaned) {
        Err(_) => Err(ContentError::InvalidEncoding),
        Ok(decoded) => match utf8_to_string(decoded) {
            Err(_) => Err(ContentError::InvalidText),
            Ok(text) => Ok(text),
        },
    }
}

// ---------------------------------------------------------------------------
// Assembling fetched files into documents.
// ---------------------------------------------------------------------------

/// The documents derived from fetch results, in order: a file that came back
/// with content becomes a document; an abandoned file is absent and stops
/// nothing else.
pub open spec fn collected(rs: Seq<(String, Option<String>)>) -> Seq<DocMeta>
    decreases rs.len(),
{
    if rs.len() == 0 {
        Seq::empty()
    } else {
        let front = collected(rs.drop_last());
        match rs.last().1 {
            Some(c) => front.push(
                DocMeta {
                    path: rs.last().0@,
                    content: c@,
                    title: derived_title(c@, rs.last().0@),
                    summary: summary_of(c@),
                },
            ),
            None => front,
        }
    }
}

/// Builds the scan's documents from the per-file fetch results.
pub fn collect_documents(results: Vec<(String, Option<String>)>) -> (docs: Vec<Document>)
    ensures
        docs.deep_view() == collected(results@),
{
    let ghost rs = results@;
    let mut docs: Vec<Document> = Vec::new();
    let mut i: usize = 0;
    assert(rs.subrange(0, 0) =~= Seq::<(String, Option<String>)>::empty());
    assert(docs.deep_view() =~= Seq::<DocMeta>::empty());
    while i < results.len()
        invariant
            i <= results.len(),
            rs == results@,
            docs.deep_view() == collected(rs.subrange(0, i as int)),
        decreases results.len() - i,
    {
        let ghost before = docs.deep_view();
        assert(rs.subrange(0, i as int + 1).drop_last() =~= rs.subrange(0, i as int));
        assert(rs.subrange(0, i as int + 1).last() == rs[i as int]);
        let (path, outcome) = &results[i];
        match outcome {
            Some(content) => {
                let d = build_document(path.clone(), content.clone());
                docs.push(d);
                assert(docs.deep_view() =~= before.push(
                    DocMeta {
                        path: rs[i as int].0@,
                        content: rs[i as int].1->0@,
                        title: derived_title(rs[i as int].1->0@, rs[i as int].0@),
                        summary: summary_of(rs[i as int].1->0@),
                    },
                ));
            },
            None => {},
        }
        i += 1;
    }
    assert(rs.subrange(0, rs.len() as int) =~= rs);
    docs
}

} // verus!
