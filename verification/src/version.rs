//! The `version` command: enabling, suspending and inspecting bucket
//! versioning, and listing object versions.

use vstd::prelude::*;

use crate::remote_path::{cut2, split2, view_result2, view_result_opt3};
use crate::exit_code::{ExitCode, Failure};
use crate::setup::{
    Capabilities, common_next, common_step, event_view, fail, fail_around, fail_with, step_view, EventView,
    SetupEvent, SetupStep, StepView,
};
use crate::size_text::{binary_size_text, human_size};
use crate::text::{
    concat, decimal, decimal_text, ends_with_char, first_pos, substring, lemma_first_pos, lemma_first_pos_at, lemma_split_once_parts,
    lemma_trailing_count, opt_text, pad_left, pad_right, spaces, texts, trailing_count, trailing_run,
    trim_end,
};
use vstd::string::*;
use crate::tree::{parse_prefixed_path, prefixed_path_result};

verus! {

/// Message for an empty path argument.
pub open spec fn msg_empty_path() -> Seq<char> {
    "Path cannot be empty"@
}

/// Message for a bucket path without a bucket.
pub open spec fn msg_bucket_required() -> Seq<char> {
    "Bucket name is required (alias/bucket)"@
}

/// What parsing `alias/bucket` gives: the alias (before the first `/`) and
/// the bucket (the rest, without trailing `/`), or the message that says why
/// the path is not of that form; a bucket that is nothing but `/` is no
/// bucket.
pub open spec fn bucket_path_result(s: Seq<char>) -> Result<(Seq<char>, Seq<char>), Seq<char>> {
    let p = split2(s);
    if s.len() == 0 {
        Err(msg_empty_path())
    } else if p.len() < 2 || trim_end(p[1], '/').len() == 0 {
        Err(msg_bucket_required())
    } else {
        Ok((p[0], trim_end(p[1], '/')))
    }
}

/// Splits `alias/bucket` into alias and bucket, dropping trailing `/` from the bucket.
pub fn parse_bucket_path(path: &str) -> (result: Result<(String, String), String>)
    ensures
        view_result2(result) == bucket_path_result(path@),
{
    if path.is_empty() {
        return Err("Path cannot be empty".to_owned());
    }
    let chars = crate::text::chars_of(path);
    let n = chars.len();
    let i = cut2(path, &chars);
    if i == n || i + 1 == n {
        return Err("Bucket name is required (alias/bucket)".to_owned());
    }
    let k = trailing_run(&chars, '/', n);
    proof {
        let rest = path@.subrange(i + 1, n as int);
        crate::text::lemma_trailing_count_at(rest, '/', if k < n - i - 1 { k as int } else { (n - i - 1) as int });
        assert(chars@.take(n as int) =~= chars@);
    }
    let end = if k < n - i - 1 { n - k } else { i + 1 };
    proof {
        let rest = path@.subrange(i + 1, n as int);
        assert(rest.take(rest.len() - crate::text::trailing_count(rest, '/')) =~= path@.subrange(i + 1, end as int));
    }
    if end == i + 1 {
        return Err("Bucket name is required (alias/bucket)".to_owned());
    }
    Ok((substring(path, 0, i), substring(path, i + 1, end)))
}

/// Splits the version listing path `alias/bucket[/prefix]`.
pub fn parse_version_path(path: &str) -> (result: Result<(String, String, Option<String>), String>)
    ensures
        view_result_opt3(result) == prefixed_path_result(path@),
{
    parse_prefixed_path(path)
}


// ---------------------------------------------------------------------------
// Arguments
// ---------------------------------------------------------------------------

/// Arguments of the version command.
pub struct VersionArgs {
    pub command: VersionCommands,
}

/// The version subcommands.
pub enum VersionCommands {
    /// Enable versioning for a bucket.
    Enable(BucketArg),
    /// Suspend versioning for a bucket.
    Suspend(BucketArg),
    /// Get versioning status for a bucket.
    Info(BucketArg),
    /// List object versions.
    List(ListVersionsArgs),
}

/// A bucket path and whether to skip the capability check.
pub struct BucketArg {
    /// Path to the bucket (alias/bucket).
    pub path: String,
    /// Force operation even if capability detection fails.
    pub force: bool,
}

/// Arguments of `version list`.
pub struct ListVersionsArgs {
    /// Path to list versions (alias/bucket[/prefix]).
    pub path: String,
    /// Maximum number of versions to show.
    pub max: i32,
    /// Force operation even if capability detection fails.
    pub force: bool,
}

// ---------------------------------------------------------------------------
// Versioning status
// ---------------------------------------------------------------------------

/// The label of a versioning status: on, suspended, or never configured.
pub open spec fn status_label(status: Option<bool>) -> Seq<char> {
    match status {
        Some(true) => "Enabled"@,
        Some(false) => "Suspended"@,
        None => "Not configured"@,
    }
}

/// The label of a versioning status.
pub fn versioning_label(status: Option<bool>) -> (s: String)
    ensures
        s@ == status_label(status),
{
    match status {
        Some(true) => "Enabled".to_owned(),
        Some(false) => "Suspended".to_owned(),
        None => "Not configured".to_owned(),
    }
}

/// The message after versioning of `bucket` was enabled or suspended.
pub fn versioning_changed_message(bucket: &str, enabled: bool) -> (m: String)
    ensures
        m@ == (if enabled { "Versioning enabled for bucket '"@ } else { "Versioning suspended for bucket '"@ })
            + bucket@ + "'"@,
{
    let mut m = if enabled {
        concat("Versioning enabled for bucket '", bucket)
    } else {
        concat("Versioning suspended for bucket '", bucket)
    };
    m.append("'");
    m
}

/// The text lines that report the versioning status of `bucket`.
pub fn versioning_info_lines(bucket: &str, status: Option<bool>) -> (lines: Vec<String>)
    ensures
        texts(lines@) == seq!["Bucket: "@ + bucket@, "Versioning: "@ + status_label(status)],
{
    let mut lines: Vec<String> = Vec::new();
    lines.push(concat("Bucket: ", bucket));
    let label = versioning_label(status);
    lines.push(concat("Versioning: ", label.as_str()));
    proof {
        assert(texts(lines@) =~= seq!["Bucket: "@ + bucket@, "Versioning: "@ + status_label(status)]);
    }
    lines
}

// ---------------------------------------------------------------------------
// Version listing
// ---------------------------------------------------------------------------

/// What a version listing row shows of an object version.
pub struct VersionEntry {
    pub key: String,
    pub version_id: String,
    pub is_latest: bool,
    pub is_delete_marker: bool,
    pub size_bytes: Option<i64>,
}

/// The size of a version as text, when it has one.
pub open spec fn size_text_of(size: Option<i64>) -> Option<Seq<char>> {
    match size {
        Some(s) => Some(binary_size_text(s as u64)),
        None => None,
    }
}

/// The size of a version as text, when it has one.
pub fn size_human_of(size: Option<i64>) -> (r: Option<String>)
    ensures
        opt_text(r) == size_text_of(size),
{
    match size {
        Some(s) => Some(human_size(s)),
        None => None,
    }
}

/// The row of a version: a `*` for the latest, the key padded to 40, the
/// first ten characters of the version id right-aligned in 10, the size
/// right-aligned in 12, and `[DELETE]` for a delete marker.
pub open spec fn version_row_spec(v: VersionEntry) -> Seq<char> {
    let latest = if v.is_latest { "*"@ } else { " "@ };
    let id = if v.version_id@.len() <= 10 { v.version_id@ } else { v.version_id@.take(10) };
    let size = match size_text_of(v.size_bytes) {
        Some(t) => t,
        None => Seq::empty(),
    };
    let marker = if v.is_delete_marker { "[DELETE]"@ } else { Seq::empty() };
    latest + " "@ + pad_right(v.key@, 40) + " "@ + pad_left(id, 10) + " "@ + pad_left(size, 12) + " "@ + marker
}

/// `s` followed by `n` spaces.
fn append_spaces(out: &mut String, n: usize)
    ensures
        final(out)@ == old(out)@ + spaces(n as nat),
{
    let mut k: usize = 0;
    while k < n
        invariant
            k <= n,
            out@ == old(out)@ + spaces(k as nat),
        decreases n - k,
    {
        out.append(" ");
        proof {
            reveal_strlit(" ");
            assert(spaces((k + 1) as nat) =~= spaces(k as nat) + " "@);
        }
        k += 1;
    }
}

/// Appends `s` left-aligned in `width` characters.
fn append_left_aligned(out: &mut String, s: &str, width: usize)
    ensures
        final(out)@ == old(out)@ + pad_right(s@, width as nat),
{
    let n = s.unicode_len();
    out.append(s);
    if n < width {
        append_spaces(out, width - n);
    }
}

/// Appends `s` right-aligned in `width` characters.
fn append_right_aligned(out: &mut String, s: &str, width: usize)
    ensures
        final(out)@ == old(out)@ + pad_left(s@, width as nat),
{
    let n = s.unicode_len();
    if n < width {
        append_spaces(out, width - n);
    }
    out.append(s);
}

/// The listing row of the version `v`.
pub fn version_row(v: &VersionEntry) -> (row: String)
    ensures
        row@ == version_row_spec(*v),
{
    let mut row = if v.is_latest { "*".to_owned() } else { " ".to_owned() };
    row.append(" ");
    append_left_aligned(&mut row, v.key.as_str(), 40);
    row.append(" ");
    let id_len = v.version_id.as_str().unicode_len();
    let id = if id_len <= 10 {
        v.version_id.as_str().substring_char(0, id_len)
    } else {
        v.version_id.as_str().substring_char(0, 10)
    };
    proof {
        assert(v.version_id@.subrange(0, id_len as int) =~= v.version_id@);
    }
    append_right_aligned(&mut row, id, 10);
    row.append(" ");
    let size = match v.size_bytes {
        Some(s) => human_size(s),
        None => String::new(),
    };
    append_right_aligned(&mut row, size.as_str(), 12);
    row.append(" ");
    if v.is_delete_marker {
        row.append("[DELETE]");
    }
    proof {
        assert(row@ =~= version_row_spec(*v));
    }
    row
}

/// A request about the versions of a bucket.
#[derive(Clone, Copy, Debug, PartialEq, Eq, Structural)]
pub enum VersionRequest {
    Enable,
    Suspend,
    Status,
    List,
}

/// What a failed version request says before the server's error.
pub open spec fn version_request_words(r: VersionRequest) -> Seq<char> {
    match r {
        VersionRequest::Enable => "Failed to enable versioning: "@,
        VersionRequest::Suspend => "Failed to suspend versioning: "@,
        VersionRequest::Status => "Failed to get versioning status: "@,
        VersionRequest::List => "Failed to list versions: "@,
    }
}

/// A failed version request ends the command as a general error that passes
/// on the server's `error` after a word on what was asked.
pub fn version_request_failure(request: VersionRequest, error: &str) -> (f: Failure)
    ensures
        f.code == ExitCode::GeneralError,
        f.message@ == version_request_words(request) + error@,
{
    let message = match request {
        VersionRequest::Enable => concat("Failed to enable versioning: ", error),
        VersionRequest::Suspend => concat("Failed to suspend versioning: ", error),
        VersionRequest::Status => concat("Failed to get versioning status: ", error),
        VersionRequest::List => concat("Failed to list versions: ", error),
    };
    Failure { code: ExitCode::GeneralError, message }
}

/// The lines of a version listing: a note when there is no version, else
/// one row per version in order and a closing count after a blank line.
pub open spec fn version_list_spec(vs: Seq<VersionEntry>) -> Seq<Seq<char>> {
    if vs.len() == 0 {
        seq!["No versions found."@]
    } else {
        Seq::new(vs.len(), |i: int| version_row_spec(vs[i])) + seq![
            "\nTotal: "@ + decimal(vs.len()) + " version(s)"@,
        ]
    }
}

/// The lines that list the versions `vs`.
pub fn version_list_lines(vs: &[VersionEntry]) -> (lines: Vec<String>)
    ensures
        texts(lines@) == version_list_spec(vs@),
{
    let mut lines: Vec<String> = Vec::new();
    if vs.len() == 0 {
        lines.push("No versions found.".to_owned());
        proof {
            assert(texts(lines@) =~= version_list_spec(vs@));
        }
        return lines;
    }
    let n = vs.len();
    let mut i: usize = 0;
    while i < n
        invariant
            n == vs@.len(),
            i <= n,
            texts(lines@) =~= Seq::new(i as nat, |j: int| version_row_spec(vs@[j])),
        decreases n - i,
    {
        let row = version_row(&vs[i]);
        let ghost before = texts(lines@);
        lines.push(row);
        proof {
            assert(texts(lines@) =~= before.push(version_row_spec(vs@[i as int])));
        }
        i += 1;
    }
    let mut last = concat("\nTotal: ", decimal_text(n).as_str());
    last.append(" version(s)");
    lines.push(last);
    proof {
        assert(texts(lines@) =~= version_list_spec(vs@));
    }
    lines
}

// ---------------------------------------------------------------------------
// Connecting to the server
// ---------------------------------------------------------------------------

/// Message when the server cannot keep versions.
pub open spec fn msg_no_versioning() -> Seq<char> {
    "Backend does not support versioning. Use --force to attempt anyway."@
}

/// The setup steps of the version command: aliases, alias, client, the
/// capability check (whose failure `force` overrides, and which must report
/// versioning unless forced), then the bucket must exist. Any other pairing
/// of state and outcome leaves the state as it is.
pub open spec fn version_setup_next(
    s: StepView,
    e: EventView,
    force: bool,
    alias_name: Seq<char>,
    bucket: Seq<char>,
) -> StepView {
    match common_next(s, e, alias_name) {
        Some(n) => n,
        None => match (s, e) {
            (StepView::CreateClient, EventView::ClientCreated(Ok(()))) => StepView::DetectCapabilities,
            (StepView::DetectCapabilities, EventView::CapabilitiesDetected(Ok(c))) => if !force
                && !c.versioning {
                StepView::Failed(ExitCode::UnsupportedFeature, msg_no_versioning())
            } else {
                StepView::CheckBucket
            },
            (StepView::DetectCapabilities, EventView::CapabilitiesDetected(Err(m))) => if force {
                StepView::CheckBucket
            } else {
                StepView::Failed(ExitCode::NetworkError, "Failed to detect capabilities: "@ + m)
            },
            (StepView::CheckBucket, EventView::BucketChecked(Ok(true))) => StepView::Ready,
            (StepView::CheckBucket, EventView::BucketChecked(Ok(false))) => StepView::Failed(
                ExitCode::NotFound,
                "Bucket '"@ + bucket + "' does not exist"@,
            ),
            (StepView::CheckBucket, EventView::BucketChecked(Err(m))) => StepView::Failed(
                ExitCode::NetworkError,
                "Failed to check bucket: "@ + m,
            ),
            _ => s,
        },
    }
}

/// The setup state after `state` when `event` reports how its step went.
pub fn version_setup_step(state: SetupStep, event: &SetupEvent, force: bool, alias_name: &str, bucket: &str) -> (next:
    SetupStep)
    ensures
        step_view(next) == version_setup_next(step_view(state), event_view(*event), force, alias_name@, bucket@),
{
    let state = match common_step(state, event, alias_name) {
        Ok(n) => return n,
        Err(s) => s,
    };
    match (&state, event) {
        (SetupStep::CreateClient, SetupEvent::ClientCreated(Ok(()))) => SetupStep::DetectCapabilities,
        (SetupStep::DetectCapabilities, SetupEvent::CapabilitiesDetected(Ok(c))) => if !force && !c.versioning {
            fail(ExitCode::UnsupportedFeature, "Backend does not support versioning. Use --force to attempt anyway.")
        } else {
            SetupStep::CheckBucket
        },
        (SetupStep::DetectCapabilities, SetupEvent::CapabilitiesDetected(Err(m))) => if force {
            SetupStep::CheckBucket
        } else {
            fail_with(ExitCode::NetworkError, "Failed to detect capabilities: ", m.as_str())
        },
        (SetupStep::CheckBucket, SetupEvent::BucketChecked(Ok(true))) => SetupStep::Ready,
        (SetupStep::CheckBucket, SetupEvent::BucketChecked(Ok(false))) => fail_around(
            ExitCode::NotFound,
            "Bucket '",
            bucket,
            "' does not exist",
        ),
        (SetupStep::CheckBucket, SetupEvent::BucketChecked(Err(m))) => fail_with(
            ExitCode::NetworkError,
            "Failed to check bucket: ",
            m.as_str(),
        ),
        _ => state,
    }
}


// ---------------------------------------------------------------------------
// Laws
// ---------------------------------------------------------------------------

/// `n` slash characters.
pub open spec fn slashes(n: nat) -> Seq<char> {
    Seq::new(n, |i: int| '/')
}

/// A bucket path parses into an alias without `/` and a non-empty bucket
/// that does not end with `/`; the path is the two joined by `/`, followed
/// only by the trailing `/` that were dropped.
pub proof fn law_bucket_path_parts_join(path: Seq<char>)
    ensures
        bucket_path_result(path) matches Ok((a, b)) ==> {
            &&& !a.contains('/')
            &&& b.len() > 0
            &&& !ends_with_char(b, '/')
            &&& path == a + seq!['/'] + b + slashes((path.len() - a.len() - 1 - b.len()) as nat)
        },
{
    lemma_split_once_parts(path, '/');
    if let Ok((a, b)) = bucket_path_result(path) {
        let rest = split2(path)[1];
        let t = trailing_count(rest, '/');
        lemma_trailing_count(rest, '/');
        assert(b =~= rest.take(rest.len() - t));
        assert(rest =~= b + slashes(t));
        if ends_with_char(b, '/') {
            assert(rest[b.len() - 1] == '/');
            assert(rest[rest.len() - 1 - t] == '/');
        }
        assert(path =~= a + seq!['/'] + b + slashes(t));
    }
}

/// A slash added at the end of a bucket path changes nothing.
pub proof fn law_bucket_path_trailing_slash(path: Seq<char>)
    requires
        bucket_path_result(path) is Ok,
    ensures
        bucket_path_result(path + seq!['/']) == bucket_path_result(path),
{
    let s2 = path + seq!['/'];
    lemma_first_pos(path, '/');
    let i = first_pos(path, '/');
    assert(i < path.len());
    assert forall|j: int| 0 <= j < i implies s2[j] != '/' by {
        assert(s2[j] == path[j]);
    }
    assert(s2[i as int] == path[i as int]);
    lemma_first_pos_at(s2, '/', i as int);
    let rest = path.skip(i + 1int);
    assert(s2.skip(i + 1int) =~= rest + seq!['/']);
    assert(s2.take(i as int) =~= path.take(i as int));
    assert((rest + seq!['/']).drop_last() =~= rest);
    assert(trailing_count(rest + seq!['/'], '/') == 1 + trailing_count(rest, '/'));
    lemma_trailing_count(rest, '/');
    let r2 = rest + seq!['/'];
    let n = rest.len() - trailing_count(rest, '/');
    assert(r2.take(n) =~= rest.take(n)) by {
        assert forall|j: int| 0 <= j < n implies r2[j] == rest[j] by {}
    }
    assert(trim_end(r2, '/') =~= trim_end(rest, '/'));
}

/// A finished setup stays as it is, whatever is reported afterwards.
pub proof fn law_version_setup_finished_stays(
    s: StepView,
    e: EventView,
    force: bool,
    alias_name: Seq<char>,
    bucket: Seq<char>,
)
    requires
        s is Ready || s is Failed,
    ensures
        version_setup_next(s, e, force, alias_name, bucket) == s,
{
}

/// Forced, version setup goes on to the bucket check whatever the capability
/// check reports.
pub proof fn law_version_setup_forced(e: EventView, alias_name: Seq<char>, bucket: Seq<char>)
    requires
        e is CapabilitiesDetected,
    ensures
        version_setup_next(StepView::DetectCapabilities, e, true, alias_name, bucket) == StepView::CheckBucket,
{
}

/// A version row starts with `*` exactly when the version is the latest
/// (a space otherwise), whatever its other fields, and it ends with
/// `[DELETE]` when the version is a delete marker.
pub proof fn law_version_row_marks(v: VersionEntry)
    ensures
        version_row_spec(v).len() > 0,
        version_row_spec(v)[0] == (if v.is_latest { '*' } else { ' ' }),
        v.is_delete_marker ==> version_row_spec(v).len() >= 8 && version_row_spec(v).skip(
            version_row_spec(v).len() - 8,
        ) == "[DELETE]"@,
{
    reveal_strlit("*");
    reveal_strlit(" ");
    reveal_strlit("[DELETE]");
    let r = version_row_spec(v);
    let latest = if v.is_latest { "*"@ } else { " "@ };
    assert(r[0] == latest[0]);
    if v.is_delete_marker {
        assert(r.skip(r.len() - 8) =~= "[DELETE]"@);
    }
}

/// Reported successes carry the version command from loading aliases to
/// ready: capabilities are always asked for, the bucket is always checked,
/// and it is ready once the bucket exists. Unforced, a server without
/// versioning, or a failed capability report, ends it; forced, both go on
/// to the bucket check. A missing bucket is a not-found failure naming it.
pub proof fn law_version_setup_path(
    c: Capabilities,
    force: bool,
    alias_name: Seq<char>,
    bucket: Seq<char>,
    m: Seq<char>,
)
    ensures
        version_setup_next(StepView::LoadAliases, EventView::AliasesLoaded(Ok(())), force, alias_name, bucket)
            == StepView::ResolveAlias,
        version_setup_next(StepView::ResolveAlias, EventView::AliasResolved(true), force, alias_name, bucket)
            == StepView::CreateClient,
        version_setup_next(StepView::CreateClient, EventView::ClientCreated(Ok(())), force, alias_name, bucket)
            == StepView::DetectCapabilities,
        version_setup_next(
            StepView::DetectCapabilities,
            EventView::CapabilitiesDetected(Ok(c)),
            force,
            alias_name,
            bucket,
        ) == (if force || c.versioning {
            StepView::CheckBucket
        } else {
            StepView::Failed(
                ExitCode::UnsupportedFeature,
                "Backend does not support versioning. Use --force to attempt anyway."@,
            )
        }),
        version_setup_next(
            StepView::DetectCapabilities,
            EventView::CapabilitiesDetected(Err(m)),
            force,
            alias_name,
            bucket,
        ) == (if force {
            StepView::CheckBucket
        } else {
            StepView::Failed(ExitCode::NetworkError, "Failed to detect capabilities: "@ + m)
        }),
        version_setup_next(StepView::CheckBucket, EventView::BucketChecked(Ok(true)), force, alias_name, bucket)
            == StepView::Ready,
        version_setup_next(StepView::CheckBucket, EventView::BucketChecked(Ok(false)), force, alias_name, bucket)
            == StepView::Failed(ExitCode::NotFound, "Bucket '"@ + bucket + "' does not exist"@),
        version_setup_next(StepView::CheckBucket, EventView::BucketChecked(Err(m)), force, alias_name, bucket)
            == StepView::Failed(ExitCode::NetworkError, "Failed to check bucket: "@ + m),
        version_setup_next(StepView::ResolveAlias, EventView::AliasResolved(false), force, alias_name, bucket)
            == StepView::Failed(ExitCode::NotFound, "Alias '"@ + alias_name + "' not found"@),
{
}

/// The versioning status is named as the server reports it: on, off, or
/// never set.
pub proof fn law_status_labels()
    ensures
        status_label(Some(true)) == "Enabled"@,
        status_label(Some(false)) == "Suspended"@,
        status_label(None) == "Not configured"@,
{
}

} // verus!
