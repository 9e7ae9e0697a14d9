//! Remote sources: how they are registered, listed and polled, and how the server is made known to
//! clients.

use vstd::prelude::*;
use vstd::utf8::encode_utf8;

use crate::config;
use crate::config::{BiemConfig, ConfigError, RemoteSourceEntry};
use crate::confluence::ConfluenceConfig;
use crate::dates;
use crate::json;
use crate::json::{Json, JsonView};
use crate::query;
use crate::text;

verus! {

// ── Registering ─────────────────────────────────────────────────────────────

/// A remote source to register.
#[derive(Debug)]
pub enum RemoteAdd {
    Confluence {
        name: String,
        base_url: String,
        username: String,
        spaces: Vec<String>,
        poll_interval_secs: u64,
    },
    Jira {
        name: String,
        base_url: String,
        username: String,
        projects: Vec<String>,
        poll_interval_secs: u64,
    },
    Slack {
        name: String,
        channel_ids: Vec<String>,
        channel_names: Vec<String>,
        poll_interval_secs: u64,
    },
}

/// Whether an entry is the one to register.
pub open spec fn is_entry_for(add: RemoteAdd, name: Seq<char>, e: RemoteSourceEntry) -> bool {
    &&& e.data_dir@.len() == 0
    &&& e.last_poll is None
    &&& match add {
        RemoteAdd::Confluence { name: n, base_url, username, spaces, poll_interval_secs } => {
            &&& name == n@
            &&& e.kind@ == "confluence"@
            &&& e.poll_interval_secs == poll_interval_secs
            &&& e.base_url == Some(base_url)
            &&& e.username == Some(username)
            &&& e.spaces == Some(spaces)
            &&& e.projects is None
            &&& e.channel_ids is None
            &&& e.channel_names is None
        },
        RemoteAdd::Jira { name: n, base_url, username, projects, poll_interval_secs } => {
            &&& name == n@
            &&& e.kind@ == "jira"@
            &&& e.poll_interval_secs == poll_interval_secs
            &&& e.base_url == Some(base_url)
            &&& e.username == Some(username)
            &&& e.spaces is None
            &&& e.projects == Some(projects)
            &&& e.channel_ids is None
            &&& e.channel_names is None
        },
        RemoteAdd::Slack { name: n, channel_ids, channel_names, poll_interval_secs } => {
            &&& name == n@
            &&& e.kind@ == "slack"@
            &&& e.poll_interval_secs == poll_interval_secs
            &&& e.base_url is None
            &&& e.username is None
            &&& e.spaces is None
            &&& e.projects is None
            &&& e.channel_ids == Some(channel_ids)
            &&& e.channel_names == Some(channel_names)
        },
    }
}

/// The name and the entry of a remote source to register.
pub fn remote_entry(add: RemoteAdd) -> (r: (String, RemoteSourceEntry))
    ensures
        is_entry_for(add, r.0@, r.1),
{
    let none = String::new();
    assert(none@ =~= Seq::<char>::empty());
    match add {
        RemoteAdd::Confluence { name, base_url, username, spaces, poll_interval_secs } => (
            name,
            RemoteSourceEntry {
                kind: "confluence".to_owned(),
                data_dir: none,
                last_poll: None,
                poll_interval_secs,
                base_url: Some(base_url),
                username: Some(username),
                spaces: Some(spaces),
                projects: None,
                channel_ids: None,
                channel_names: None,
            },
        ),
        RemoteAdd::Jira { name, base_url, username, projects, poll_interval_secs } => (
            name,
            RemoteSourceEntry {
                kind: "jira".to_owned(),
                data_dir: none,
                last_poll: None,
                poll_interval_secs,
                base_url: Some(base_url),
                username: Some(username),
                spaces: None,
                projects: Some(projects),
                channel_ids: None,
                channel_names: None,
            },
        ),
        RemoteAdd::Slack { name, channel_ids, channel_names, poll_interval_secs } => (
            name,
            RemoteSourceEntry {
                kind: "slack".to_owned(),
                data_dir: none,
                last_poll: None,
                poll_interval_secs,
                base_url: None,
                username: None,
                spaces: None,
                projects: None,
                channel_ids: Some(channel_ids),
                channel_names: Some(channel_names),
            },
        ),
    }
}

/// The environment variable that holds the credential of a kind of source.
pub open spec fn token_variable_spec(kind: Seq<char>) -> Option<Seq<char>> {
    if kind == "confluence"@ {
        Some("CONFLUENCE_API_TOKEN"@)
    } else if kind == "jira"@ {
        Some("JIRA_API_TOKEN"@)
    } else if kind == "slack"@ {
        Some("SLACK_BOT_TOKEN"@)
    } else {
        None
    }
}

/// The environment variable that holds the credential of a kind of source, or an error for a kind
/// that is not known.
pub fn token_variable(kind: &str) -> (r: Result<&'static str, String>)
    ensures
        match r {
            Ok(v) => token_variable_spec(kind@) == Some(v@),
            Err(m) => token_variable_spec(kind@) is None && m@ == "unknown remote source kind: '"@
                + kind@ + "'"@,
        },
{
    if text::str_eq(kind, "confluence") {
        Ok("CONFLUENCE_API_TOKEN")
    } else if text::str_eq(kind, "jira") {
        Ok("JIRA_API_TOKEN")
    } else if text::str_eq(kind, "slack") {
        Ok("SLACK_BOT_TOKEN")
    } else {
        let a = text::concat("unknown remote source kind: '", kind);
        Err(text::concat(a.as_str(), "'"))
    }
}

/// What to do after a remote source was registered.
pub open spec fn next_step_spec(variable: Seq<char>, name: Seq<char>) -> Seq<char> {
    "Set "@ + variable + ", then run: locus remote poll --name "@ + name
}

/// What to do after a remote source was registered.
pub fn next_step(variable: &str, name: &str) -> (r: String)
    ensures
        r@ == next_step_spec(variable@, name@),
{
    let a = text::concat("Set ", variable);
    let b = text::concat(a.as_str(), ", then run: locus remote poll --name ");
    text::concat(b.as_str(), name)
}

/// Whether a remote source was registered with an entry.
pub open spec fn is_added(
    add: RemoteAdd,
    e: RemoteSourceEntry,
    locus_dir: Seq<char>,
    before: Map<Seq<char>, RemoteSourceEntry>,
    after: Map<Seq<char>, RemoteSourceEntry>,
    name: Seq<char>,
    tip: Seq<char>,
) -> bool {
    &&& is_entry_for(add, name, e)
    &&& !before.dom().contains(name)
    &&& after.dom().contains(name)
    &&& config::is_filled(after[name], e, locus_dir, name)
    &&& after == before.insert(name, after[name])
    &&& tip == next_step_spec(token_variable_spec(e.kind@)->Some_0, name)
}

/// Registers a remote source, and returns its name and what to do next.
pub fn cmd_remote_add(add: RemoteAdd, locus_dir: &str, config: &mut BiemConfig) -> (r: Result<
    (String, String),
    ConfigError,
>)
    requires
        old(config).wf(),
    ensures
        final(config).wf(),
        final(config).sources == old(config).sources,
        final(config).vaults_compat == old(config).vaults_compat,
        match r {
            Ok((name, tip)) => exists|e: RemoteSourceEntry| #[trigger]
                is_added(
                    add,
                    e,
                    locus_dir@,
                    old(config).remote_sources@,
                    final(config).remote_sources@,
                    name@,
                    tip@,
                ),
            Err(ConfigError::SourceAlreadyRegistered(n)) => old(
                config,
            ).remote_sources@.dom().contains(n@) && final(config).remote_sources
                == old(config).remote_sources && exists|e: RemoteSourceEntry| #[trigger]
                is_entry_for(add, n@, e),
            Err(_) => false,
        },
{
    let (name, entry) = remote_entry(add);
    let ghost given = entry;
    assert(is_entry_for(add, name@, given));
    let kind = entry.kind.clone();
    match config::register_remote_source(name.as_str(), entry, locus_dir, config) {
        Ok(()) => {},
        Err(e) => {
            return Err(e);
        },
    }
    let variable = match token_variable(kind.as_str()) {
        Ok(v) => v,
        Err(_) => {
            assert(kind@ == "confluence"@ || kind@ == "jira"@ || kind@ == "slack"@);
            assert(false);
            ""
        },
    };
    let tip = next_step(variable, name.as_str());
    assert(token_variable_spec(given.kind@) == Some(variable@));
    let added = (name, tip);
    let r: Result<(String, String), ConfigError> = Ok(added);
    assert(is_added(
        add,
        given,
        locus_dir@,
        old(config).remote_sources@,
        config.remote_sources@,
        (r->Ok_0).0@,
        (r->Ok_0).1@,
    ));
    assert(exists|e: RemoteSourceEntry| #[trigger]
        is_added(
            add,
            e,
            locus_dir@,
            old(config).remote_sources@,
            config.remote_sources@,
            (r->Ok_0).0@,
            (r->Ok_0).1@,
        ));
    r
}

// ── Listing ─────────────────────────────────────────────────────────────────

/// A text with spaces behind it up to a width.
pub open spec fn padded_right(s: Seq<char>, width: nat) -> Seq<char> {
    if s.len() >= width {
        s
    } else {
        s + Seq::new((width - s.len()) as nat, |i: int| ' ')
    }
}

/// A text with spaces behind it up to a width.
pub fn pad_right(s: &str, width: usize) -> (r: String)
    ensures
        r@ == padded_right(s@, width as nat),
{
    let v = text::chars_of(s);
    let mut out = s.to_owned();
    let mut n: usize = v.len();
    let ghost start = n;
    while n < width
        invariant
            v@ == s@,
            start == v@.len(),
            start <= n,
            n <= width || n == start,
            out@ == s@ + Seq::new((n - start) as nat, |i: int| ' '),
        decreases width - n,
    {
        let ghost before = out@;
        out.push(' ');
        n += 1;
        assert(out@ =~= s@ + Seq::new((n - start) as nat, |i: int| ' '));
    }
    assert(out@ =~= padded_right(s@, width as nat));
    out
}

/// Names with a hash sign before each.
pub open spec fn hashed(names: Seq<Seq<char>>) -> Seq<Seq<char>> {
    Seq::new(names.len(), |i: int| "#"@ + names[i])
}

fn with_hash(names: &Vec<String>) -> (r: Vec<String>)
    ensures
        r.deep_view() == hashed(names.deep_view()),
{
    let mut out: Vec<String> = Vec::new();
    let mut i: usize = 0;
    while i < names.len()
        invariant
            i <= names@.len(),
            out@.len() == i,
            forall|j: int| 0 <= j < i ==> (#[trigger] out@[j])@ == "#"@ + names@[j]@,
        decreases names@.len() - i,
    {
        out.push(text::concat("#", names[i].as_str()));
        i += 1;
    }
    assert(out.deep_view() =~= hashed(names.deep_view()));
    out
}

/// An optional list; empty where there is none.
pub open spec fn or_none(o: Option<Vec<String>>) -> Seq<Seq<char>> {
    match o {
        Some(v) => v.deep_view(),
        None => Seq::empty(),
    }
}

fn list_or_none(o: &Option<Vec<String>>) -> (r: Vec<String>)
    ensures
        r.deep_view() == or_none(*o),
{
    match o {
        Some(v) => query::clone_keys(v),
        None => {
            let v: Vec<String> = Vec::new();
            assert(v.deep_view() =~= Seq::<Seq<char>>::empty());
            v
        },
    }
}

/// What is polled of a remote source.
pub open spec fn summary_spec(e: RemoteSourceEntry) -> Seq<char> {
    if e.kind@ == "confluence"@ {
        "spaces: "@ + text::join_spec(or_none(e.spaces), ", "@)
    } else if e.kind@ == "jira"@ {
        "projects: "@ + text::join_spec(or_none(e.projects), ", "@)
    } else if e.kind@ == "slack"@ {
        "channels: "@ + text::join_spec(hashed(or_none(e.channel_names)), ", "@)
    } else {
        ""@
    }
}

/// What is polled of a remote source.
pub fn summary(e: &RemoteSourceEntry) -> (r: String)
    ensures
        r@ == summary_spec(*e),
{
    if text::str_eq(e.kind.as_str(), "confluence") {
        let list = list_or_none(&e.spaces);
        let s = text::join(&list, ", ");
        text::concat("spaces: ", s.as_str())
    } else if text::str_eq(e.kind.as_str(), "jira") {
        let list = list_or_none(&e.projects);
        let s = text::join(&list, ", ");
        text::concat("projects: ", s.as_str())
    } else if text::str_eq(e.kind.as_str(), "slack") {
        let list = list_or_none(&e.channel_names);
        let names = with_hash(&list);
        let s = text::join(&names, ", ");
        text::concat("channels: ", s.as_str())
    } else {
        "".to_owned()
    }
}

/// The line of a remote source, where the time of the last poll is given as text.
pub open spec fn source_line_spec(name: Seq<char>, e: RemoteSourceEntry, last: Seq<char>) -> Seq<
    char,
> {
    padded_right(name, 20) + " "@ + padded_right(e.kind@, 12) + " "@ + padded_right(
        dates::decimal_spec(e.poll_interval_secs as nat),
        10,
    ) + " "@ + last + "  ("@ + summary_spec(e) + ")"@
}

/// The line of a remote source.
pub fn source_line(name: &str, e: &RemoteSourceEntry, last: &str) -> (r: String)
    ensures
        r@ == source_line_spec(name@, *e, last@),
{
    let a = pad_right(name, 20);
    let b = text::concat(a.as_str(), " ");
    let c = text::concat(b.as_str(), pad_right(e.kind.as_str(), 12).as_str());
    let d = text::concat(c.as_str(), " ");
    let n = dates::decimal(e.poll_interval_secs);
    let f = text::concat(d.as_str(), pad_right(n.as_str(), 10).as_str());
    let g = text::concat(f.as_str(), " ");
    let h = text::concat(g.as_str(), last);
    let i = text::concat(h.as_str(), "  (");
    let j = text::concat(i.as_str(), summary(e).as_str());
    text::concat(j.as_str(), ")")
}

// ── Polling ─────────────────────────────────────────────────────────────────

/// The names of the sources to poll: the one that was given, or all in order.
pub fn names_to_poll(config: &BiemConfig, name: Option<&str>) -> (r: Result<Vec<String>, String>)
    requires
        config.wf(),
    ensures
        match (name, r) {
            (Some(n), Ok(v)) => config.remote_sources@.dom().contains(n@) && v.deep_view()
                == seq![n@],
            (Some(n), Err(m)) => !config.remote_sources@.dom().contains(n@) && m@
                == "remote source '"@ + n@ + "' not found — use `locus remote list`"@,
            (None, Ok(v)) => v.deep_view() == config.remote_sources.keys_spec(),
            (None, Err(_)) => false,
        },
{
    match name {
        Some(n) => if config.remote_sources.contains_key(n) {
            let mut v: Vec<String> = Vec::new();
            v.push(n.to_owned());
            assert(v.deep_view() =~= seq![n@]);
            Ok(v)
        } else {
            let a = text::concat("remote source '", n);
            Err(text::concat(a.as_str(), "' not found — use `locus remote list`"))
        },
        None => {
            let n = config.remote_sources.len();
            let mut v: Vec<String> = Vec::new();
            let mut i: usize = 0;
            let ghost keys = config.remote_sources.keys_spec();
            while i < n
                invariant
                    config.wf(),
                    keys == config.remote_sources.keys_spec(),
                    n == config.remote_sources.entries_spec().len(),
                    i <= n,
                    v@.len() == i,
                    forall|j: int| 0 <= j < i ==> (#[trigger] v@[j])@ == keys[j],
                decreases n - i,
            {
                proof {
                    config.remote_sources.lemma_keys();
                    assert(config.remote_sources.entries_spec()[i as int].0@ == keys[i as int]);
                }
                v.push(config.remote_sources.key_at(i).clone());
                i += 1;
            }
            proof {
                config.remote_sources.lemma_keys();
                assert(v.deep_view() =~= keys);
            }
            Ok(v)
        },
    }
}

/// From when on a source is polled: from the beginning where all is wanted or it was never polled.
pub fn poll_since(entry: &RemoteSourceEntry, full: bool) -> (r: Option<i64>)
    ensures
        r == if full {
            None
        } else {
            entry.last_poll
        },
{
    if full {
        None
    } else {
        entry.last_poll
    }
}

/// The text of an optional string; empty where there is none.
pub open spec fn text_or_empty(o: Option<String>) -> Seq<char> {
    match o {
        Some(s) => s@,
        None => ""@,
    }
}

fn string_or_empty(o: &Option<String>) -> (r: String)
    ensures
        r@ == text_or_empty(*o),
{
    match o {
        Some(s) => s.clone(),
        None => "".to_owned(),
    }
}

/// How a Confluence source is reached with a credential.
pub fn confluence_config(entry: &RemoteSourceEntry, api_token: String) -> (r: ConfluenceConfig)
    ensures
        r.base_url@ == text_or_empty(entry.base_url),
        r.username@ == text_or_empty(entry.username),
        r.api_token == api_token,
        r.spaces.deep_view() == or_none(entry.spaces),
        r.poll_interval_secs == entry.poll_interval_secs,
{
    ConfluenceConfig {
        base_url: string_or_empty(&entry.base_url),
        username: string_or_empty(&entry.username),
        api_token,
        spaces: list_or_none(&entry.spaces),
        poll_interval_secs: entry.poll_interval_secs,
    }
}

// ── Making the server known ─────────────────────────────────────────────────

/// Why the server cannot be made known in a settings file.
#[derive(Debug, PartialEq, Eq)]
pub enum InstallError {
    /// The settings are not JSON, for a reason.
    NotJson(String),
    /// The settings are not an object.
    NotObject,
    /// The list of servers is not an object.
    ServersNotObject,
}

/// The settings of the server: the command, and its arguments.
pub open spec fn server_spec(command: Seq<char>, vault: Seq<char>) -> JsonView {
    JsonView::Object(
        seq![
            ("command"@, JsonView::Text(command)),
            ("args"@, JsonView::Array(seq![JsonView::Text(vault), JsonView::Text("--mcp"@)])),
        ],
    )
}

/// The servers that settings list; none where there is no list.
pub open spec fn listed_servers(fields: Seq<(Seq<char>, JsonView)>) -> JsonView {
    match json::field_index(fields, "mcpServers"@) {
        Some(i) => fields[i].1,
        None => JsonView::Object(Seq::empty()),
    }
}

/// Settings in which the server is known.
pub open spec fn installed_spec(root: JsonView, command: Seq<char>, vault: Seq<char>) -> Result<
    JsonView,
    InstallError,
> {
    match root {
        JsonView::Object(fields) => match listed_servers(fields) {
            JsonView::Object(servers) => Ok(
                JsonView::Object(
                    json::set_field(
                        fields,
                        "mcpServers"@,
                        JsonView::Object(
                            json::set_field(servers, "locus"@, server_spec(command, vault)),
                        ),
                    ),
                ),
            ),
            _ => Err(InstallError::ServersNotObject),
        },
        _ => Err(InstallError::NotObject),
    }
}

fn text_value(s: &str) -> (r: Json)
    ensures
        r.model() == JsonView::Text(s@),
{
    Json::Text(s.to_owned())
}

fn server_value(command: &str, vault: &str) -> (r: Json)
    ensures
        r.model() == server_spec(command@, vault@),
{
    let mut args: Vec<Json> = Vec::new();
    args.push(text_value(vault));
    args.push(text_value("--mcp"));
    let list = Json::Array(args);
    assert(list.model()->Array_0 =~= seq![JsonView::Text(vault@), JsonView::Text("--mcp"@)]);
    let mut fields: Vec<(String, Json)> = Vec::new();
    fields.push(("command".to_owned(), text_value(command)));
    fields.push(("args".to_owned(), list));
    let r = Json::Object(fields);
    assert(r.model()->Object_0 =~= server_spec(command@, vault@)->Object_0);
    r
}

/// Sets a field of an object.
fn put_field(fields: &mut Vec<(String, Json)>, name: &str, value: Json)
    ensures
        json::fields_view(final(fields)@) == json::set_field(
            json::fields_view(old(fields)@),
            name@,
            value.model(),
        ),
{
    let ghost before = json::fields_view(fields@);
    match json::find_field(fields, name) {
        Some(i) => {
            fields.set(i, (name.to_owned(), value));
            assert(json::fields_view(fields@) =~= before.update(
                i as int,
                (name@, value.model()),
            ));
        },
        None => {
            fields.push((name.to_owned(), value));
            assert(json::fields_view(fields@) =~= before.push((name@, value.model())));
        },
    }
}

proof fn lemma_object_model(fields: Vec<(String, Json)>)
    ensures
        Json::Object(fields).model() == JsonView::Object(json::fields_view(fields@)),
{
    assert(Json::Object(fields).model()->Object_0 =~= json::fields_view(fields@));
}

/// Makes the server known in settings.
pub fn install_server(root: Json, command: &str, vault: &str) -> (r: Result<Json, InstallError>)
    ensures
        match r {
            Ok(j) => installed_spec(root.model(), command@, vault@) == Ok::<JsonView, InstallError>(
                j.model(),
            ),
            Err(e) => installed_spec(root.model(), command@, vault@) == Err::<
                JsonView,
                InstallError,
            >(e),
        },
{
    match root {
        Json::Object(fields) => {
            let mut fields = fields;
            let ghost fv = json::fields_view(fields@);
            proof {
                lemma_object_model(fields);
            }
            let mut servers = match json::find_field(&fields, "mcpServers") {
                Some(i) => {
                    assert(fv[i as int] == (fields@[i as int].0@, fields@[i as int].1.model()));
                    let (name, value) = fields.remove(i);
                    let taken = match value {
                        Json::Object(s) => {
                            proof {
                                lemma_object_model(s);
                            }
                            s
                        },
                        _ => {
                            return Err(InstallError::ServersNotObject);
                        },
                    };
                    fields.insert(i, (name, Json::Null));
                    proof {
                        let now = json::fields_view(fields@);
                        assert(now =~= fv.update(i as int, (name@, JsonView::Null)));
                        lemma_field_index_update(fv, "mcpServers"@, i as int, JsonView::Null);
                    }
                    taken
                },
                None => {
                    let s: Vec<(String, Json)> = Vec::new();
                    assert(json::fields_view(s@) =~= Seq::<(Seq<char>, JsonView)>::empty());
                    s
                },
            };
            let ghost now = json::fields_view(fields@);
            let ghost sv = json::fields_view(servers@);
            put_field(&mut servers, "locus", server_value(command, vault));
            let list = Json::Object(servers);
            proof {
                lemma_object_model(servers);
            }
            put_field(&mut fields, "mcpServers", list);
            proof {
                lemma_object_model(fields);
                assert(json::set_field(now, "mcpServers"@, list.model()) =~= json::set_field(
                    fv,
                    "mcpServers"@,
                    list.model(),
                ));
            }
            Ok(Json::Object(fields))
        },
        _ => Err(InstallError::NotObject),
    }
}

/// Makes the server known in the text of a settings file; `None` where there is no such file.
pub fn install_into(raw: Option<&str>, command: &str, vault: &str) -> (r: Result<
    Json,
    InstallError,
>)
    ensures
        match raw {
            None => r matches Ok(j) && installed_spec(
                JsonView::Object(Seq::empty()),
                command@,
                vault@,
            ) == Ok::<JsonView, InstallError>(j.model()),
            Some(t) => match json::json_document(encode_utf8(t@)) {
                Ok(v) => match r {
                    Ok(j) => installed_spec(v, command@, vault@) == Ok::<JsonView, InstallError>(
                        j.model(),
                    ),
                    Err(e) => installed_spec(v, command@, vault@) == Err::<JsonView, InstallError>(
                        e,
                    ),
                },
                Err(m) => r matches Err(InstallError::NotJson(e)) && e@ == m,
            },
        },
{
    let root = match raw {
        None => {
            let fields: Vec<(String, Json)> = Vec::new();
            proof {
                lemma_object_model(fields);
                assert(json::fields_view(fields@) =~= Seq::<(Seq<char>, JsonView)>::empty());
            }
            Json::Object(fields)
        },
        Some(t) => match json::json_from_slice(t.as_bytes()) {
            Ok(v) => v,
            Err(m) => {
                return Err(InstallError::NotJson(m));
            },
        },
    };
    install_server(root, command, vault)
}

proof fn lemma_set_field(fields: Seq<(Seq<char>, JsonView)>, name: Seq<char>, value: JsonView)
    ensures
        json::field_index(json::set_field(fields, name, value), name) matches Some(i) && 0 <= i
            < json::set_field(fields, name, value).len() && json::set_field(
            fields,
            name,
            value,
        )[i] == (name, value),
        json::set_field(json::set_field(fields, name, value), name, value) == json::set_field(
            fields,
            name,
            value,
        ),
{
    json::lemma_field_index(fields, name);
    match json::field_index(fields, name) {
        Some(i) => {
            lemma_field_index_update(fields, name, i, value);
        },
        None => {},
    }
    let once = json::set_field(fields, name, value);
    assert(json::set_field(once, name, value) =~= once);
}

/// Installing twice changes nothing: settings in which the server is known stay as they are.
pub proof fn law_install_twice(root: JsonView, command: Seq<char>, vault: Seq<char>)
    requires
        installed_spec(root, command, vault) is Ok,
    ensures
        installed_spec(installed_spec(root, command, vault)->Ok_0, command, vault)
            == installed_spec(root, command, vault),
{
    let fields = root->Object_0;
    let servers = listed_servers(fields)->Object_0;
    let own = server_spec(command, vault);
    let inner = json::set_field(servers, "locus"@, own);
    lemma_set_field(servers, "locus"@, own);
    lemma_set_field(fields, "mcpServers"@, JsonView::Object(inner));
}

/// Every other setting and every other server is kept.
pub proof fn law_install_keeps_the_rest(
    root: JsonView,
    command: Seq<char>,
    vault: Seq<char>,
    name: Seq<char>,
)
    requires
        installed_spec(root, command, vault) is Ok,
    ensures
        name != "mcpServers"@ ==> field_value(
            installed_spec(root, command, vault)->Ok_0->Object_0,
            name,
        ) == field_value(root->Object_0, name),
        name != "locus"@ ==> field_value(
            listed_servers(
                installed_spec(root, command, vault)->Ok_0->Object_0,
            )->Object_0,
            name,
        ) == field_value(listed_servers(root->Object_0)->Object_0, name),
        field_value(
            listed_servers(
                installed_spec(root, command, vault)->Ok_0->Object_0,
            )->Object_0,
            "locus"@,
        ) == Some(server_spec(command, vault)),
{
    let fields = root->Object_0;
    let servers = listed_servers(fields)->Object_0;
    let own = server_spec(command, vault);
    let inner = json::set_field(servers, "locus"@, own);
    lemma_set_field(servers, "locus"@, own);
    lemma_set_field(fields, "mcpServers"@, JsonView::Object(inner));
    if name != "mcpServers"@ {
        lemma_other_field(fields, "mcpServers"@, JsonView::Object(inner), name);
    }
    if name != "locus"@ {
        lemma_other_field(servers, "locus"@, own, name);
    }
}

/// The value of the field with a name.
pub open spec fn field_value(fields: Seq<(Seq<char>, JsonView)>, name: Seq<char>) -> Option<
    JsonView,
> {
    match json::field_index(fields, name) {
        Some(i) => Some(fields[i].1),
        None => None,
    }
}

proof fn lemma_other_field(
    fields: Seq<(Seq<char>, JsonView)>,
    name: Seq<char>,
    value: JsonView,
    other: Seq<char>,
)
    requires
        name != other,
    ensures
        field_value(json::set_field(fields, name, value), other) == field_value(fields, other),
    decreases fields.len(),
{
    json::lemma_field_index(fields, name);
    match json::field_index(fields, name) {
        Some(i) => {
            if i == fields.len() - 1 {
                assert(fields.update(i, (name, value)).drop_last() =~= fields.drop_last());
                json::lemma_field_index(fields.drop_last(), other);
            } else {
                let less = fields.drop_last();
                json::lemma_field_index(less, name);
                json::lemma_field_index(less, other);
                lemma_other_field(less, name, value, other);
                let after = fields.update(i, (name, value));
                assert(after.drop_last() =~= less.update(i, (name, value)));
                json::lemma_field_index(after.drop_last(), other);
            }
        },
        None => {
            assert(fields.push((name, value)).drop_last() =~= fields);
            json::lemma_field_index(fields, other);
        },
    }
}

/// Changing the value of a field keeps where fields of its name are.
proof fn lemma_field_index_update(
    fields: Seq<(Seq<char>, JsonView)>,
    name: Seq<char>,
    i: int,
    value: JsonView,
)
    requires
        json::field_index(fields, name) == Some(i),
        0 <= i < fields.len(),
    ensures
        fields[i].0 == name,
        json::field_index(fields.update(i, (name, value)), name) == Some(i),
    decreases fields.len(),
{
    let f2 = fields.update(i, (name, value));
    if fields.last().0 != name {
        json::lemma_field_index(fields.drop_last(), name);
        assert(f2.drop_last() =~= fields.drop_last().update(i, (name, value)));
        lemma_field_index_update(fields.drop_last(), name, i, value);
    }
}

} // verus!
