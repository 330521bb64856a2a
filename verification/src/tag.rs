//! The `tag` command: listing, setting and removing the tags of an object.

use vstd::prelude::*;

use crate::exit_code::{ExitCode, Failure};
use crate::remote_path::{cut3, lemma_split3_join, split3, view_result3};
use crate::setup::{
    Capabilities,
    common_next, common_step, event_view, fail, fail_with, step_view, EventView, SetupEvent, SetupStep,
    StepView,
};
use crate::text::{
    chars_of, concat, decimal, decimal_text, find_from, lemma_split_once_join, lemma_split_once_none, split_once, substring, texts,
};

verus! {

/// Message for an empty path argument.
pub open spec fn msg_empty_path() -> Seq<char> {
    "Path cannot be empty"@
}

/// Message for an object path without a key.
pub open spec fn msg_key_required() -> Seq<char> {
    "Object key is required (alias/bucket/key)"@
}

/// Alias, bucket and key of an object path `alias/bucket/key`: the first two
/// `/` separate the three, the key keeps any further `/` and is not empty.
pub open spec fn object_path_parts(s: Seq<char>) -> Option<(Seq<char>, Seq<char>, Seq<char>)> {
    let p = split3(s);
    if p.len() < 3 || p[2].len() == 0 {
        None
    } else {
        Some((p[0], p[1], p[2]))
    }
}

/// What parsing an object path gives: its three parts, or the message that
/// says why it is not one.
pub open spec fn object_path_result(s: Seq<char>) -> Result<(Seq<char>, Seq<char>, Seq<char>), Seq<char>> {
    if s.len() == 0 {
        Err(msg_empty_path())
    } else {
        match object_path_parts(s) {
            Some(parts) => Ok(parts),
            None => Err(msg_key_required()),
        }
    }
}

/// Splits `alias/bucket/key` into its three parts.
pub fn parse_object_path(path: &str) -> (result: Result<(String, String, String), String>)
    ensures
        view_result3(result) == object_path_result(path@),
{
    if path.is_empty() {
        return Err("Path cannot be empty".to_owned());
    }
    let chars = crate::text::chars_of(path);
    let n = chars.len();
    let cut = cut3(path, &chars);
    if cut.second == n || cut.second + 1 == n {
        return Err("Object key is required (alias/bucket/key)".to_owned());
    }
    Ok((substring(path, 0, cut.first), substring(path, cut.first + 1, cut.second), substring(path, cut.second + 1, n)))
}


// ---------------------------------------------------------------------------
// Arguments
// ---------------------------------------------------------------------------

/// Arguments of the tag command.
pub struct TagArgs {
    pub command: TagCommands,
}

/// The tag subcommands.
pub enum TagCommands {
    /// List tags for an object.
    List(ObjectPathArg),
    /// Set tags for an object (the `set` subcommand).
    SetTags(SetTagArgs),
    /// Remove all tags from an object.
    Remove(ObjectPathArg),
}

/// An object path and whether to skip the capability check.
pub struct ObjectPathArg {
    /// Path to the object (alias/bucket/key).
    pub path: String,
    /// Force operation even if capability detection fails.
    pub force: bool,
}

/// Arguments of `tag set`.
pub struct SetTagArgs {
    /// Path to the object (alias/bucket/key).
    pub path: String,
    /// Tags to set, each `key=value`.
    pub tags: Vec<String>,
    /// Force operation even if capability detection fails.
    pub force: bool,
}

// ---------------------------------------------------------------------------
// Tags
// ---------------------------------------------------------------------------

/// Message for a tag without `=`.
pub open spec fn msg_expected_pair(t: Seq<char>) -> Seq<char> {
    "Invalid tag format: '"@ + t + "' (expected key=value)"@
}

/// Message for a tag with an empty key.
pub open spec fn msg_empty_key(t: Seq<char>) -> Seq<char> {
    "Invalid tag format: '"@ + t + "' (key cannot be empty)"@
}

/// The tags that `key=value` texts give, in order: each text is cut at its
/// first `=`, a later value for a key replacing an earlier one. The first
/// text without `=`, or with an empty key, is reported instead.
pub open spec fn tags_result(ts: Seq<Seq<char>>) -> Result<Map<Seq<char>, Seq<char>>, Seq<char>>
    decreases ts.len(),
{
    if ts.len() == 0 {
        Ok(Map::empty())
    } else {
        match tags_result(ts.drop_last()) {
            Err(e) => Err(e),
            Ok(m) => match split_once(ts.last(), '=') {
                None => Err(msg_expected_pair(ts.last())),
                Some((k, v)) => if k.len() == 0 {
                    Err(msg_empty_key(ts.last()))
                } else {
                    Ok(m.insert(k, v))
                },
            },
        }
    }
}

/// The views of key/value pairs.
pub open spec fn pairs_view(v: Seq<(String, String)>) -> Seq<(Seq<char>, Seq<char>)> {
    v.map_values(|p: (String, String)| (p.0@, p.1@))
}

/// `v` holds each key once, and exactly the entries of `m`.
pub open spec fn pairs_are(v: Seq<(Seq<char>, Seq<char>)>, m: Map<Seq<char>, Seq<char>>) -> bool {
    &&& forall|i: int, j: int| 0 <= i < j < v.len() ==> v[i].0 != v[j].0
    &&& forall|i: int| 0 <= i < v.len() ==> m.contains_key(#[trigger] v[i].0) && m[v[i].0] == v[i].1
    &&& forall|k: Seq<char>| #[trigger] m.contains_key(k) ==> exists|i: int| 0 <= i < v.len() && v[i].0 == k
}

/// Sets `key` to `value` in `tags`, replacing the value of an equal key.
fn put_tag(tags: &mut Vec<(String, String)>, key: String, value: String)
    requires
        forall|i: int, j: int| 0 <= i < j < old(tags)@.len() ==> old(tags)@[i].0@ != old(tags)@[j].0@,
    ensures
        forall|i: int, j: int| 0 <= i < j < final(tags)@.len() ==> final(tags)@[i].0@ != final(tags)@[j].0@,
        forall|m: Map<Seq<char>, Seq<char>>| pairs_are(pairs_view(old(tags)@), m) ==> pairs_are(
            pairs_view(final(tags)@),
            m.insert(key@, value@),
        ),
{
    let ghost old_tags = tags@;
    let mut i: usize = 0;
    while i < tags.len()
        invariant
            i <= tags.len(),
            tags@ == old_tags,
            old_tags == old(tags)@,
            forall|a: int, b: int| 0 <= a < b < old_tags.len() ==> old_tags[a].0@ != old_tags[b].0@,
            forall|j: int| 0 <= j < i ==> tags@[j].0@ != key@,
        decreases tags.len() - i,
    {
        if tags[i].0 == key {
            let ghost k = key@;
            let ghost val = value@;
            proof {
                assert(old_tags[i as int].0@ == k);
            }
            tags.set(i, (key, value));
            proof {
                let nv = pairs_view(tags@);
                let ov = pairs_view(old_tags);
                assert(nv.len() == ov.len());
                assert forall|a: int| 0 <= a < nv.len() && a != i implies nv[a] == ov[a] by {
                    assert(tags@[a] == old_tags[a]);
                }
                assert(nv[i as int] == (k, val));
                assert(ov[i as int].0 == k);
                assert forall|a: int, b: int| 0 <= a < b < tags@.len() implies tags@[a].0@ != tags@[b].0@ by {
                    assert(nv[a].0 == tags@[a].0@);
                    assert(nv[b].0 == tags@[b].0@);
                    assert(ov[a].0 == old_tags[a].0@);
                    assert(ov[b].0 == old_tags[b].0@);
                }
                assert forall|m: Map<Seq<char>, Seq<char>>| pairs_are(ov, m) implies pairs_are(
                    nv,
                    m.insert(k, val),
                ) by {
                    let nm = m.insert(k, val);
                    assert forall|kk: Seq<char>| #[trigger] nm.contains_key(kk) implies exists|a: int| 0 <= a < nv.len() && nv[a].0 == kk by {
                        if kk == k {
                            assert(nv[i as int].0 == kk);
                        } else {
                            let a = choose|a: int| 0 <= a < ov.len() && ov[a].0 == kk;
                            assert(nv[a] == ov[a]);
                        }
                    }
                    assert forall|a: int| 0 <= a < nv.len() implies nm.contains_key(#[trigger] nv[a].0) && nm[nv[a].0] == nv[a].1 by {
                        if a != i {
                            assert(nv[a] == ov[a]);
                            assert(m.contains_key(ov[a].0));
                            if a < i {
                                assert(ov[a].0 != ov[i as int].0);
                            } else {
                                assert(ov[i as int].0 != ov[a].0);
                            }
                        }
                    }
                    assert forall|a: int, b: int| 0 <= a < b < nv.len() implies nv[a].0 != nv[b].0 by {
                        assert(nv[a].0 == tags@[a].0@);
                        assert(nv[b].0 == tags@[b].0@);
                    }
                }
            }
            return;
        }
        i += 1;
    }
    let ghost k = key@;
    let ghost val = value@;
    tags.push((key, value));
    proof {
        let nv = pairs_view(tags@);
        let ov = pairs_view(old_tags);
        assert(nv.len() == ov.len() + 1);
        assert forall|a: int| 0 <= a < ov.len() implies nv[a] == ov[a] by {
            assert(tags@[a] == old_tags[a]);
        }
        assert(nv[ov.len() as int] == (k, val));
        assert forall|a: int| 0 <= a < ov.len() implies ov[a].0 != k by {
            assert(ov[a].0 == old_tags[a].0@);
        }
        assert forall|a: int, b: int| 0 <= a < b < tags@.len() implies tags@[a].0@ != tags@[b].0@ by {
            assert(nv[a].0 == tags@[a].0@);
            assert(nv[b].0 == tags@[b].0@);
            if b < ov.len() {
                assert(ov[a].0 == old_tags[a].0@);
                assert(ov[b].0 == old_tags[b].0@);
            }
        }
        assert forall|m: Map<Seq<char>, Seq<char>>| pairs_are(ov, m) implies pairs_are(
            nv,
            m.insert(k, val),
        ) by {
            let nm = m.insert(k, val);
            assert forall|kk: Seq<char>| #[trigger] nm.contains_key(kk) implies exists|a: int| 0 <= a < nv.len() && nv[a].0 == kk by {
                if kk == k {
                    assert(nv[ov.len() as int].0 == kk);
                } else {
                    let a = choose|a: int| 0 <= a < ov.len() && ov[a].0 == kk;
                    assert(nv[a] == ov[a]);
                }
            }
            assert forall|a: int| 0 <= a < nv.len() implies nm.contains_key(#[trigger] nv[a].0) && nm[nv[a].0] == nv[a].1 by {
                if a < ov.len() {
                    assert(nv[a] == ov[a]);
                    assert(m.contains_key(ov[a].0));
                }
            }
            assert forall|a: int, b: int| 0 <= a < b < nv.len() implies nv[a].0 != nv[b].0 by {
                assert(nv[a].0 == tags@[a].0@);
                assert(nv[b].0 == tags@[b].0@);
            }
        }
    }
}

/// Parses `key=value` texts into tags, each key once, a later value for a
/// key replacing an earlier one; or reports the first text that is not of
/// that form.
pub fn parse_tags(texts_in: &[String]) -> (r: Result<Vec<(String, String)>, String>)
    ensures
        match (r, tags_result(texts(texts_in@))) {
            (Ok(v), Ok(m)) => pairs_are(pairs_view(v@), m),
            (Err(e), Err(m)) => e@ == m,
            _ => false,
        },
{
    let mut tags: Vec<(String, String)> = Vec::new();
    let mut i: usize = 0;
    proof {
        assert(texts(texts_in@).take(0) =~= Seq::<Seq<char>>::empty());
    }
    while i < texts_in.len()
        invariant
            i <= texts_in@.len(),
            forall|a: int, b: int| 0 <= a < b < tags@.len() ==> tags@[a].0@ != tags@[b].0@,
            tags_result(texts(texts_in@).take(i as int)) matches Ok(m) && pairs_are(pairs_view(tags@), m),
        decreases texts_in@.len() - i,
    {
        let t = &texts_in[i];
        let ghost prefix = texts(texts_in@).take(i + 1int);
        proof {
            assert(prefix.drop_last() =~= texts(texts_in@).take(i as int));
            assert(prefix.last() == t@);
        }
        let chars = chars_of(t.as_str());
        let eq = find_from(&chars, '=', 0);
        proof {
            assert(chars@.skip(0) =~= chars@);
        }
        if eq == chars.len() {
            let mut m = concat("Invalid tag format: '", t.as_str());
            m.append("' (expected key=value)");
            proof {
                assert(tags_result(prefix) == Err::<Map<Seq<char>, Seq<char>>, Seq<char>>(msg_expected_pair(t@)));
                lemma_tags_result_err_stays(texts(texts_in@), i as int + 1);
                assert(texts(texts_in@).take(texts_in@.len() as int) =~= texts(texts_in@));
            }
            return Err(m);
        }
        if eq == 0 {
            let mut m = concat("Invalid tag format: '", t.as_str());
            m.append("' (key cannot be empty)");
            proof {
                assert(t@.take(0) =~= Seq::<char>::empty());
                assert(tags_result(prefix) == Err::<Map<Seq<char>, Seq<char>>, Seq<char>>(msg_empty_key(t@)));
                lemma_tags_result_err_stays(texts(texts_in@), i as int + 1);
                assert(texts(texts_in@).take(texts_in@.len() as int) =~= texts(texts_in@));
            }
            return Err(m);
        }
        let key = substring(t.as_str(), 0, eq);
        let value = substring(t.as_str(), eq + 1, chars.len());
        proof {
            assert(t@.take(eq as int) =~= key@);
            assert(t@.skip(eq + 1int) =~= value@);
        }
        put_tag(&mut tags, key, value);
        i += 1;
    }
    proof {
        assert(texts(texts_in@).take(texts_in@.len() as int) =~= texts(texts_in@));
    }
    Ok(tags)
}

/// Once the tags of a prefix are in error, every longer prefix gives that error.
proof fn lemma_tags_result_err_stays(ts: Seq<Seq<char>>, k: int)
    requires
        0 <= k <= ts.len(),
        tags_result(ts.take(k)) is Err,
    ensures
        tags_result(ts) == tags_result(ts.take(k)),
    decreases ts.len() - k,
{
    if k < ts.len() {
        assert(ts.take(k + 1).drop_last() =~= ts.take(k));
        lemma_tags_result_err_stays(ts, k + 1);
    } else {
        assert(ts.take(k) =~= ts);
    }
}

/// What `tag set` sends: the object and its tags.
pub struct SetTagsPlan {
    pub alias: String,
    pub bucket: String,
    pub key: String,
    pub tags: Vec<(String, String)>,
}

/// Message for `tag set` without tags.
pub open spec fn msg_tags_required() -> Seq<char> {
    "At least one tag is required (--tags key=value)"@
}

/// The usage error of `tag set` with `path` and `tags`, checked in the
/// order the command checks: some tag is given, the path names an object,
/// every tag is `key=value` with a key.
pub open spec fn set_tags_error(path: Seq<char>, tags: Seq<Seq<char>>) -> Option<Seq<char>> {
    if tags.len() == 0 {
        Some(msg_tags_required())
    } else {
        match object_path_result(path) {
            Err(e) => Some(e),
            Ok(_) => match tags_result(tags) {
                Err(e) => Some(e),
                Ok(_) => None,
            },
        }
    }
}

/// Checks the arguments of `tag set` and gives the object and tags to send,
/// or the first usage error.
pub fn prepare_set_tags(args: &SetTagArgs) -> (r: Result<SetTagsPlan, String>)
    ensures
        r is Err <==> set_tags_error(args.path@, texts(args.tags@)) is Some,
        r matches Err(e) ==> set_tags_error(args.path@, texts(args.tags@)) == Some(e@),
        r matches Ok(plan) ==> object_path_result(args.path@) == Ok::<
            (Seq<char>, Seq<char>, Seq<char>),
            Seq<char>,
        >((plan.alias@, plan.bucket@, plan.key@)) && pairs_are(
            pairs_view(plan.tags@),
            tags_result(texts(args.tags@))->Ok_0,
        ),
{
    if args.tags.len() == 0 {
        return Err("At least one tag is required (--tags key=value)".to_owned());
    }
    let (alias, bucket, key) = match parse_object_path(args.path.as_str()) {
        Ok(p) => p,
        Err(e) => return Err(e),
    };
    let tags = match parse_tags(args.tags.as_slice()) {
        Ok(t) => t,
        Err(e) => return Err(e),
    };
    Ok(SetTagsPlan { alias, bucket, key, tags })
}

// ---------------------------------------------------------------------------
// Output
// ---------------------------------------------------------------------------

/// The text lines that list an object's tags.
pub open spec fn tag_list_lines_spec(path: Seq<char>, tags: Seq<(Seq<char>, Seq<char>)>) -> Seq<Seq<char>> {
    if tags.len() == 0 {
        seq!["No tags found."@]
    } else {
        seq!["Tags for '"@ + path + "':"@] + tags.map_values(
            |p: (Seq<char>, Seq<char>)| "  "@ + p.0 + "="@ + p.1,
        )
    }
}

/// The text lines that list the tags of the object at `path`.
pub fn tag_list_lines(path: &str, tags: &[(String, String)]) -> (lines: Vec<String>)
    ensures
        texts(lines@) == tag_list_lines_spec(path@, pairs_view(tags@)),
{
    let mut lines: Vec<String> = Vec::new();
    if tags.len() == 0 {
        lines.push("No tags found.".to_owned());
        proof {
            assert(texts(lines@) =~= tag_list_lines_spec(path@, pairs_view(tags@)));
        }
        return lines;
    }
    let mut head = concat("Tags for '", path);
    head.append("':");
    lines.push(head);
    let mut i: usize = 0;
    while i < tags.len()
        invariant
            i <= tags@.len(),
            tags@.len() > 0,
            texts(lines@) == seq!["Tags for '"@ + path@ + "':"@] + pairs_view(tags@).take(i as int).map_values(
                |p: (Seq<char>, Seq<char>)| "  "@ + p.0 + "="@ + p.1,
            ),
        decreases tags@.len() - i,
    {
        let mut line = concat("  ", tags[i].0.as_str());
        line.append("=");
        line.append(tags[i].1.as_str());
        let ghost before = texts(lines@);
        lines.push(line);
        proof {
            assert(pairs_view(tags@).take(i + 1int) =~= pairs_view(tags@).take(i as int).push(
                (tags@[i as int].0@, tags@[i as int].1@),
            ));
            assert(texts(lines@) =~= before.push(line@));
            assert(texts(lines@) =~= seq!["Tags for '"@ + path@ + "':"@] + pairs_view(tags@).take(i + 1int).map_values(
                |p: (Seq<char>, Seq<char>)| "  "@ + p.0 + "="@ + p.1,
            ));
        }
        i += 1;
    }
    proof {
        assert(pairs_view(tags@).take(tags@.len() as int) =~= pairs_view(tags@));
    }
    lines
}

/// The message after `count` tags were set on the object at `path`.
pub fn set_tags_message(count: usize, path: &str) -> (m: String)
    ensures
        m@ == "Set "@ + decimal(count as nat) + " tag(s) on '"@ + path@ + "'"@,
{
    let mut m = concat("Set ", decimal_text(count).as_str());
    m.append(" tag(s) on '");
    m.append(path);
    m.append("'");
    m
}

/// A request about the tags of an object.
#[derive(Clone, Copy, Debug, PartialEq, Eq, Structural)]
pub enum TagRequest {
    GetTags,
    SetTags,
    RemoveTags,
}

/// What a failed tag request says before the server's error.
pub open spec fn tag_request_words(r: TagRequest) -> Seq<char> {
    match r {
        TagRequest::GetTags => "Failed to get tags: "@,
        TagRequest::SetTags => "Failed to set tags: "@,
        TagRequest::RemoveTags => "Failed to remove tags: "@,
    }
}

/// A failed tag request ends the command as a general error that passes on
/// the server's `error` after a word on what was asked.
pub fn tag_request_failure(request: TagRequest, error: &str) -> (f: Failure)
    ensures
        f.code == ExitCode::GeneralError,
        f.message@ == tag_request_words(request) + error@,
{
    let message = match request {
        TagRequest::GetTags => concat("Failed to get tags: ", error),
        TagRequest::SetTags => concat("Failed to set tags: ", error),
        TagRequest::RemoveTags => concat("Failed to remove tags: ", error),
    };
    Failure { code: ExitCode::GeneralError, message }
}

/// The message after all tags of the object at `path` were removed.
pub fn removed_tags_message(path: &str) -> (m: String)
    ensures
        m@ == "Removed all tags from '"@ + path@ + "'"@,
{
    let mut m = concat("Removed all tags from '", path);
    m.append("'");
    m
}

// ---------------------------------------------------------------------------
// Connecting to the server
// ---------------------------------------------------------------------------

/// Message when the server cannot tag objects.
pub open spec fn msg_no_tagging() -> Seq<char> {
    "Backend does not support tagging. Use --force to attempt anyway."@
}

/// The setup steps of the tag command: aliases, alias, client, then, unless
/// forced, the capability check, which must report tagging. Any other
/// pairing of state and outcome leaves the state as it is.
pub open spec fn tag_setup_next(s: StepView, e: EventView, force: bool, alias_name: Seq<char>) -> StepView {
    match common_next(s, e, alias_name) {
        Some(n) => n,
        None => match (s, e) {
            (StepView::CreateClient, EventView::ClientCreated(Ok(()))) => if force {
                StepView::Ready
            } else {
                StepView::DetectCapabilities
            },
            (StepView::DetectCapabilities, EventView::CapabilitiesDetected(Ok(c))) => if c.tagging {
                StepView::Ready
            } else {
                StepView::Failed(ExitCode::UnsupportedFeature, msg_no_tagging())
            },
            (StepView::DetectCapabilities, EventView::CapabilitiesDetected(Err(m))) => StepView::Failed(
                ExitCode::NetworkError,
                "Failed to detect capabilities: "@ + m,
            ),
            _ => s,
        },
    }
}

/// The setup state after `state` when `event` reports how its step went.
pub fn tag_setup_step(state: SetupStep, event: &SetupEvent, force: bool, alias_name: &str) -> (next: SetupStep)
    ensures
        step_view(next) == tag_setup_next(step_view(state), event_view(*event), force, alias_name@),
{
    let state = match common_step(state, event, alias_name) {
        Ok(n) => return n,
        Err(s) => s,
    };
    match (&state, event) {
        (SetupStep::CreateClient, SetupEvent::ClientCreated(Ok(()))) => if force {
            SetupStep::Ready
        } else {
            SetupStep::DetectCapabilities
        },
        (SetupStep::DetectCapabilities, SetupEvent::CapabilitiesDetected(Ok(c))) => if c.tagging {
            SetupStep::Ready
        } else {
            fail(ExitCode::UnsupportedFeature, "Backend does not support tagging. Use --force to attempt anyway.")
        },
        (SetupStep::DetectCapabilities, SetupEvent::CapabilitiesDetected(Err(m))) => fail_with(
            ExitCode::NetworkError,
            "Failed to detect capabilities: ",
            m.as_str(),
        ),
        _ => state,
    }
}


// ---------------------------------------------------------------------------
// Laws of object paths
// ---------------------------------------------------------------------------

/// An object path parses into parts that join back to it with `/`: the
/// alias and the bucket hold no `/`, and the key is not empty.
pub proof fn law_object_path_parts_join(path: Seq<char>)
    ensures
        object_path_result(path) matches Ok((a, b, k)) ==> path == a + seq!['/'] + b + seq!['/'] + k
            && !a.contains('/') && !b.contains('/') && k.len() > 0,
{
    lemma_split3_join(path);
}

/// Joining an alias and a bucket without `/` and a key that is not empty,
/// with `/` between them, gives a path that parses back into them.
pub proof fn law_object_path_join_parts(a: Seq<char>, b: Seq<char>, k: Seq<char>)
    requires
        !a.contains('/'),
        !b.contains('/'),
        k.len() > 0,
    ensures
        object_path_result(a + seq!['/'] + b + seq!['/'] + k) == Ok::<
            (Seq<char>, Seq<char>, Seq<char>),
            Seq<char>,
        >((a, b, k)),
{
    let path = a + seq!['/'] + b + seq!['/'] + k;
    let rest = b + seq!['/'] + k;
    assert(path =~= a + seq!['/'] + rest);
    lemma_split_once_join(a, rest, '/');
    lemma_split_once_join(b, k, '/');
    assert(path.len() > 0);
}


// ---------------------------------------------------------------------------
// Laws of setting up
// ---------------------------------------------------------------------------

/// A finished setup stays as it is, whatever is reported afterwards.
pub proof fn law_tag_setup_finished_stays(s: StepView, e: EventView, force: bool, alias_name: Seq<char>)
    requires
        s is Ready || s is Failed,
    ensures
        tag_setup_next(s, e, force, alias_name) == s,
{
}

/// Forced, the tag command is ready as soon as its client exists: the
/// capability check is skipped.
pub proof fn law_tag_setup_forced(alias_name: Seq<char>)
    ensures
        tag_setup_next(StepView::CreateClient, EventView::ClientCreated(Ok(())), true, alias_name)
            == StepView::Ready,
{
}

/// Once the client exists and capabilities are asked for, the tag command
/// goes on exactly when the server reports tagging, whatever it reports of
/// versioning; a server without tagging stops it with an unsupported-feature
/// failure.
pub proof fn law_tag_setup_needs_tagging(c: Capabilities, force: bool, alias_name: Seq<char>)
    ensures
        tag_setup_next(StepView::DetectCapabilities, EventView::CapabilitiesDetected(Ok(c)), force, alias_name)
            == (if c.tagging {
            StepView::Ready
        } else {
            StepView::Failed(
                ExitCode::UnsupportedFeature,
                "Backend does not support tagging. Use --force to attempt anyway."@,
            )
        }),
        forall|d: Capabilities|
            d.tagging == c.tagging ==> #[trigger] tag_setup_next(
                StepView::DetectCapabilities,
                EventView::CapabilitiesDetected(Ok(d)),
                force,
                alias_name,
            ) == tag_setup_next(
                StepView::DetectCapabilities,
                EventView::CapabilitiesDetected(Ok(c)),
                force,
                alias_name,
            ),
{
}

/// Reported successes carry the tag command from loading aliases to ready:
/// forced, as soon as the client exists; unforced, after a capability
/// report that says tagging. Each failure on the way ends it, passing on
/// its message.
pub proof fn law_tag_setup_path(force: bool, alias_name: Seq<char>, m: Seq<char>)
    ensures
        tag_setup_next(StepView::LoadAliases, EventView::AliasesLoaded(Ok(())), force, alias_name)
            == StepView::ResolveAlias,
        tag_setup_next(StepView::ResolveAlias, EventView::AliasResolved(true), force, alias_name)
            == StepView::CreateClient,
        tag_setup_next(StepView::CreateClient, EventView::ClientCreated(Ok(())), force, alias_name) == (if force {
            StepView::Ready
        } else {
            StepView::DetectCapabilities
        }),
        tag_setup_next(StepView::LoadAliases, EventView::AliasesLoaded(Err(m)), force, alias_name)
            == StepView::Failed(ExitCode::GeneralError, "Failed to load aliases: "@ + m),
        tag_setup_next(StepView::ResolveAlias, EventView::AliasResolved(false), force, alias_name)
            == StepView::Failed(ExitCode::NotFound, "Alias '"@ + alias_name + "' not found"@),
        tag_setup_next(StepView::CreateClient, EventView::ClientCreated(Err(m)), force, alias_name)
            == StepView::Failed(ExitCode::NetworkError, "Failed to create S3 client: "@ + m),
        tag_setup_next(StepView::DetectCapabilities, EventView::CapabilitiesDetected(Err(m)), force, alias_name)
            == StepView::Failed(ExitCode::NetworkError, "Failed to detect capabilities: "@ + m),
{
}

/// Reading tags one more text at a time: `key=value` (the key holding no
/// `=`, the value anything) adds the pair, a later value for a key
/// replacing an earlier one; a text without `=`, or with nothing before
/// its first `=`, is refused with a message that quotes it; and a refusal
/// of earlier texts stands whatever follows.
pub proof fn law_tags_one_more(ts: Seq<Seq<char>>, k: Seq<char>, v: Seq<char>, t: Seq<char>)
    requires
        !k.contains('='),
    ensures
        tags_result(ts) matches Ok(m) ==> tags_result(ts.push(k + seq!['='] + v)) == (if k.len() > 0 {
            Ok(m.insert(k, v))
        } else {
            Err("Invalid tag format: '"@ + (k + seq!['='] + v) + "' (key cannot be empty)"@)
        }),
        tags_result(ts) is Ok && !t.contains('=') ==> tags_result(ts.push(t)) == Err::<
            Map<Seq<char>, Seq<char>>,
            Seq<char>,
        >("Invalid tag format: '"@ + t + "' (expected key=value)"@),
        tags_result(ts) is Err ==> tags_result(ts.push(t)) == tags_result(ts),
{
    let s1 = ts.push(k + seq!['='] + v);
    assert(s1.drop_last() =~= ts);
    lemma_split_once_join(k, v, '=');
    assert(k + seq!['='] + v == s1.last());
    let s2 = ts.push(t);
    assert(s2.drop_last() =~= ts);
    if !t.contains('=') {
        lemma_split_once_none(t, '=');
    }
}

/// The listing of an object's tags: a note when it has none, else a header
/// naming the object and one `  key=value` line per tag, in order.
pub proof fn law_tag_list_lines(path: Seq<char>, tags: Seq<(Seq<char>, Seq<char>)>)
    ensures
        tags.len() == 0 ==> tag_list_lines_spec(path, tags) == seq!["No tags found."@],
        tags.len() > 0 ==> {
            let lines = tag_list_lines_spec(path, tags);
            &&& lines.len() == tags.len() + 1
            &&& lines[0] == "Tags for '"@ + path + "':"@
            &&& forall|i: int| 0 <= i < tags.len() ==> #[trigger] lines[i + 1] == "  "@ + tags[i].0 + "="@ + tags[i].1
        },
{
}

} // verus!
