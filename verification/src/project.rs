//! Which project the tickets belong to and where they are kept: the
//! configuration file, the tickets' root below the home directory, and the
//! project's name.

use vstd::prelude::*;
use vstd::string::*;
use crate::error::TicketError;
use crate::record::{
    field_line, fields_view, header_text, lemma_field_line, lemma_header_lines,
    lemma_with_value_lookup, lookup, split_field, storable_fields, with_value, Field,
};
use crate::text::{
    chars_eq, cut, find_char, first_index, first_word, first_word_span,
    lemma_first_index, lemma_split_pieces, line_spans, spans_are_pieces, split, split_spans,
    str_eq, to_chars, trim, trim_span,
};

verus! {

/// The key under which the configuration names the project.
pub open spec fn key_project_name() -> Seq<char> {
    "project_name"@
}

/// The lines of a configuration file: the text split at newlines, without
/// the empty piece after a newline at the very end.
pub open spec fn config_lines(text: Seq<char>) -> Seq<Seq<char>> {
    let lines = split(text, '\n');
    if lines.last().len() == 0 {
        lines.drop_last()
    } else {
        lines
    }
}

/// What a configuration file means: one entry per line, key and value
/// parted by the first `:`. `None` where a line has no `:`.
pub open spec fn parse_config_text(text: Seq<char>) -> Option<Seq<(Seq<char>, Seq<char>)>> {
    let lines = config_lines(text);
    if forall|k: int| 0 <= k < lines.len() ==> (#[trigger] lines[k]).contains(':') {
        Some(Seq::new(lines.len(), |k: int| split_field(lines[k])))
    } else {
        None
    }
}

/// Writing a configuration and reading it back gives the same entries.
pub proof fn lemma_config_round_trip(entries: Seq<(Seq<char>, Seq<char>)>)
    requires
        storable_fields(entries),
    ensures
        parse_config_text(header_text(entries)) == Some(entries),
{
    let text = header_text(entries);
    let none = Seq::<char>::empty();
    lemma_header_lines(entries, none);
    assert(text + none =~= text);
    assert(split(none, '\n') =~= seq![none]);
    let made = Seq::new(entries.len(), |i: int| field_line(entries[i]));
    let lines = split(text, '\n');
    assert(lines =~= made.push(none));
    assert(lines.last() == none);
    assert(config_lines(text) =~= made);
    assert forall|k: int| 0 <= k < made.len() implies (#[trigger] made[k]).contains(':')
        && split_field(made[k]) == entries[k] by {
        lemma_field_line(entries[k]);
    }
    assert(Seq::new(made.len(), |k: int| split_field(made[k])) =~= entries);
}

/// The entries with a key set to a value: every entry of that key gets the
/// value; where there is none, one is added at the end.
pub open spec fn with_entry(
    entries: Seq<(Seq<char>, Seq<char>)>,
    key: Seq<char>,
    value: Seq<char>,
) -> Seq<(Seq<char>, Seq<char>)> {
    if lookup(entries, key) is Some {
        with_value(entries, key, value)
    } else {
        entries.push((key, value))
    }
}

/// Setting a key makes `lookup` give the new value for it, and leaves
/// what it gives for every other key.
pub proof fn lemma_with_entry(entries: Seq<(Seq<char>, Seq<char>)>, key: Seq<char>, value: Seq<char>)
    ensures
        lookup(with_entry(entries, key, value), key) == Some(value),
        forall|other: Seq<char>|
            other != key ==> #[trigger] lookup(with_entry(entries, key, value), other) == lookup(
                entries,
                other,
            ),
{
    lemma_with_value_lookup(entries, key, value);
    if lookup(entries, key) is None {
        let after = entries.push((key, value));
        assert(after.drop_last() =~= entries);
    }
}

/// A project's configuration: keys and their values, in the order of the
/// file. Keys that this library does not know are kept.
#[derive(Clone, Debug, PartialEq, Eq)]
pub struct Config {
    pub entries: Vec<Field>,
}

impl View for Config {
    type V = Seq<(Seq<char>, Seq<char>)>;

    open spec fn view(&self) -> Seq<(Seq<char>, Seq<char>)> {
        fields_view(self.entries@)
    }
}

impl Config {
    /// A configuration without entries.
    pub fn new() -> (config: Config)
        ensures
            config@ == Seq::<(Seq<char>, Seq<char>)>::empty(),
    {
        let config = Config { entries: Vec::new() };
        assert(config@ =~= Seq::<(Seq<char>, Seq<char>)>::empty());
        config
    }

    /// Reads a configuration from the text of its file. Fails where a line
    /// has no `:`.
    pub fn parse(text: &str) -> (result: Result<Config, TicketError>)
        ensures
            match result {
                Ok(config) => parse_config_text(text@) == Some(config@),
                Err(e) => e == TicketError::MalformedConfig && parse_config_text(text@) is None,
            },
    {
        let chars = to_chars(text);
        let spans = line_spans(&chars);
        let ghost all = split(text@, '\n');
        let ghost lines = config_lines(text@);
        proof {
            lemma_split_pieces(text@, '\n');
        }
        let mut count: usize = spans.len();
        let last = spans[count - 1];
        if last.start == last.end {
            count = count - 1;
        }
        assert(lines =~= all.take(count as int));
        let mut entries: Vec<Field> = Vec::new();
        let mut k: usize = 0;
        while k < count
            invariant
                k <= count <= spans.len(),
                chars@ == text@,
                all == split(text@, '\n'),
                lines == config_lines(text@),
                lines == all.take(count as int),
                spans_are_pieces(spans@, chars@, '\n'),
                entries.len() == k,
                forall|j: int| 0 <= j < k ==> (#[trigger] lines[j]).contains(':'),
                forall|j: int| 0 <= j < k ==> (#[trigger] entries[j])@ == split_field(lines[j]),
            decreases count - k,
        {
            let span = spans[k];
            let ghost line = lines[k as int];
            assert(line == chars@.subrange(span.start as int, span.end as int));
            let colon = find_char(&chars, span.start, span.end, ':');
            proof {
                lemma_first_index(line, ':');
            }
            if colon == span.end {
                assert(!lines[k as int].contains(':'));
                return Err(TicketError::MalformedConfig);
            }
            let key = cut(text, span.start, colon);
            let value = cut(text, colon + 1, span.end);
            proof {
                let i = first_index(line, ':');
                assert(line.take(i) =~= text@.subrange(span.start as int, colon as int));
                assert(line.skip(i + 1) =~= text@.subrange(colon + 1, span.end as int));
            }
            entries.push(Field { key, value });
            k += 1;
        }
        let config = Config { entries };
        assert(config@ =~= Seq::new(lines.len(), |j: int| split_field(lines[j])));
        Ok(config)
    }

    /// The value of the last entry with that key.
    pub fn get(&self, key: &str) -> (value: Option<String>)
        ensures
            match value {
                Some(text) => lookup(self@, key@) == Some(text@),
                None => lookup(self@, key@) is None,
            },
    {
        let ghost all = self@;
        let mut i: usize = self.entries.len();
        assert(all.take(i as int) =~= all);
        while i > 0
            invariant
                i <= self.entries.len(),
                all == self@,
                lookup(all, key@) == lookup(all.take(i as int), key@),
            decreases i,
        {
            i -= 1;
            proof {
                assert(all.take(i + 1).drop_last() =~= all.take(i as int));
                assert(all.take(i + 1).last() == self.entries[i as int]@);
            }
            if str_eq(self.entries[i].key.as_str(), key) {
                return Some(self.entries[i].value.clone());
            }
        }
        None
    }

    /// Sets a key to a value: every entry of that key gets the value, and
    /// where there is none, one is added at the end. The other entries stay
    /// as they are.
    pub fn set(&mut self, key: &str, value: &str)
        ensures
            final(self)@ == with_entry(old(self)@, key@, value@),
    {
        let ghost before = self@;
        let mut found = false;
        let mut i: usize = 0;
        assert(before.take(0) =~= Seq::<(Seq<char>, Seq<char>)>::empty());
        while i < self.entries.len()
            invariant
                i <= self.entries.len(),
                self@.len() == before.len(),
                forall|j: int| 0 <= j < i ==> self@[j] == with_value(before, key@, value@)[j],
                forall|j: int| i <= j < before.len() ==> self@[j] == before[j],
                found <==> lookup(before.take(i as int), key@) is Some,
            decreases self.entries.len() - i,
        {
            proof {
                assert(before.take(i + 1).drop_last() =~= before.take(i as int));
                assert(before.take(i + 1).last() == before[i as int]);
            }
            if str_eq(self.entries[i].key.as_str(), key) {
                let ghost now = self@;
                self.entries.set(i, Field::new(key, value));
                assert(self@ =~= now.update(i as int, (key@, value@)));
                found = true;
            }
            i += 1;
        }
        proof {
            assert(before.take(i as int) =~= before);
        }
        if found {
            assert(self@ =~= with_value(before, key@, value@));
        } else {
            proof {
                lemma_with_value_lookup(before, key@, value@);
            }
            assert(self@ =~= before);
            self.entries.push(Field::new(key, value));
            assert(self@ =~= before.push((key@, value@)));
        }
    }

    /// The configuration as the text of its file: one line `key:value` per
    /// entry.
    pub fn serialize(&self) -> (text: String)
        ensures
            text@ == header_text(self@),
    {
        let ghost all = self@;
        let mut text = String::new();
        let mut i: usize = 0;
        proof {
            reveal_strlit(":");
            reveal_strlit("\n");
            assert(all.take(0) =~= Seq::<(Seq<char>, Seq<char>)>::empty());
        }
        while i < self.entries.len()
            invariant
                i <= self.entries.len(),
                all == self@,
                text@ == header_text(all.take(i as int)),
                ":"@ == seq![':'],
                "\n"@ == seq!['\n'],
            decreases self.entries.len() - i,
        {
            proof {
                assert(all.take(i + 1).drop_last() =~= all.take(i as int));
                assert(all.take(i + 1).last() == self.entries[i as int]@);
            }
            let ghost before = text@;
            text.append(self.entries[i].key.as_str());
            text.append(":");
            text.append(self.entries[i].value.as_str());
            text.append("\n");
            assert(text@ =~= before + field_line(self.entries[i as int]@) + seq!['\n']);
            i += 1;
        }
        assert(all.take(i as int) =~= all);
        text
    }
}

/// The configuration that a configuration file gives. A file that is not
/// there gives a configuration without entries.
pub fn get_config(contents: Option<&str>) -> (result: Result<Config, TicketError>)
    ensures
        match contents {
            Some(text) => match result {
                Ok(config) => parse_config_text(text@) == Some(config@),
                Err(e) => e == TicketError::MalformedConfig && parse_config_text(text@) is None,
            },
            None => result matches Ok(config) && config@.len() == 0,
        },
{
    match contents {
        Some(text) => Config::parse(text),
        None => Ok(Config::new()),
    }
}

/// Whether the answer to "create a configuration?" is yes: `y` or `Y`,
/// with or without white space around it.
pub open spec fn is_yes(answer: Seq<char>) -> bool {
    trim(answer) == "y"@ || trim(answer) == "Y"@
}

/// Whether the user agreed to create a configuration.
pub fn confirms(answer: &str) -> (yes: bool)
    ensures
        yes == is_yes(answer@),
{
    let chars = to_chars(answer);
    let span = trim_span(&chars);
    chars_eq(&chars, span.start, span.end, &to_chars("y")) || chars_eq(
        &chars,
        span.start,
        span.end,
        &to_chars("Y"),
    )
}

/// Goes on where the user agreed to create a configuration, and fails
/// with `ConfigDeclined` where not.
pub fn confirm_config(answer: &str) -> (result: Result<(), TicketError>)
    ensures
        match result {
            Ok(()) => is_yes(answer@),
            Err(e) => e == TicketError::ConfigDeclined && !is_yes(answer@),
        },
{
    if confirms(answer) {
        Ok(())
    } else {
        Err(TicketError::ConfigDeclined)
    }
}

/// The project name that an answer gives: its first word, or, where it has
/// none, the default without the white space around it.
pub open spec fn chosen_name(answer: Seq<char>, default_name: Seq<char>) -> Seq<char> {
    if first_word(answer).len() > 0 {
        first_word(answer)
    } else {
        trim(default_name)
    }
}

/// The text of a new configuration file: one line that names the project
/// as the user's answer, or else the default, says.
pub fn create_config(answer: &str, default_name: &str) -> (text: String)
    ensures
        text@ == header_text(seq![(key_project_name(), chosen_name(answer@, default_name@))]),
{
    let chars = to_chars(answer);
    let word = first_word_span(&chars);
    let name = if word.start < word.end {
        cut(answer, word.start, word.end)
    } else {
        let other = to_chars(default_name);
        let span = trim_span(&other);
        cut(default_name, span.start, span.end)
    };
    proof {
        reveal_strlit(":");
        reveal_strlit("\n");
        reveal_with_fuel(header_text, 2);
        let one = seq![(key_project_name(), name@)];
        assert(one.drop_last() =~= Seq::<(Seq<char>, Seq<char>)>::empty());
    }
    let mut text = String::from_str("project_name");
    text.append(":");
    text.append(name.as_str());
    text.append("\n");
    assert(text@ =~= header_text(seq![(key_project_name(), name@)]));
    text
}

/// A directory path with one more component: a `/` stands between them
/// unless the path is empty or ends in one.
pub open spec fn joined(base: Seq<char>, name: Seq<char>) -> Seq<char> {
    if base.len() == 0 || base.last() == '/' {
        base + name
    } else {
        base + seq!['/'] + name
    }
}

/// The path `base` with the component `name` added.
pub fn join_path(base: &str, name: &str) -> (path: String)
    ensures
        path@ == joined(base@, name@),
{
    let chars = to_chars(base);
    let mut path = String::from_str(base);
    if chars.len() > 0 && chars[chars.len() - 1] != '/' {
        proof {
            reveal_strlit("/");
        }
        path.append("/");
        assert("/"@ =~= seq!['/']);
    }
    path.append(name);
    path
}

/// The name of the directory, below the home directory, that holds every
/// project's tickets.
pub open spec fn tickets_dir_name() -> Seq<char> {
    ".tickets"@
}

/// The tickets' root for that home directory. Fails where there is no home
/// directory.
pub fn tickets_root(home: Option<&str>) -> (result: Result<String, TicketError>)
    ensures
        match home {
            Some(dir) => result matches Ok(root) && root@ == joined(dir@, tickets_dir_name()),
            None => result matches Err(e) && e == TicketError::HomeDirectoryUnavailable,
        },
{
    match home {
        Some(dir) => Ok(join_path(dir, ".tickets")),
        None => Err(TicketError::HomeDirectoryUnavailable),
    }
}

/// The current user's home directory, as `home::home_dir` gives it: from
/// the `HOME` variable or from the operating system's user records.
/// Nothing is claimed of what comes back; a path that is not valid Unicode
/// comes back with replacement characters.
#[verifier::external_body]
fn home_dir() -> (home: Option<String>) {
    match home::home_dir() {
        Some(path) => Some(path.to_string_lossy().into_owned()),
        None => None,
    }
}

/// The tickets' root of the current user: `.tickets` below the home
/// directory. Fails where the home directory cannot be determined.
pub fn ticket_path() -> (result: Result<String, TicketError>)
    ensures
        match result {
            Ok(root) => exists|dir: Seq<char>| root@ == joined(dir, tickets_dir_name()),
            Err(e) => e == TicketError::HomeDirectoryUnavailable,
        },
{
    match home_dir() {
        Some(dir) => {
            let root = join_path(dir.as_str(), ".tickets");
            assert(root@ == joined(dir@, tickets_dir_name()));
            Ok(root)
        },
        None => Err(TicketError::HomeDirectoryUnavailable),
    }
}

/// The last component of a path that names something: empty components
/// and `.` are passed over from the end, and a path that ends in `..`, or
/// has no component left, names nothing.
pub open spec fn last_component(pieces: Seq<Seq<char>>) -> Option<Seq<char>>
    decreases pieces.len(),
{
    if pieces.len() == 0 {
        None
    } else if pieces.last().len() == 0 || pieces.last() == "."@ {
        last_component(pieces.drop_last())
    } else if pieces.last() == ".."@ {
        None
    } else {
        Some(pieces.last())
    }
}

/// The base name of a path: its last component, as `last_component` finds
/// it among the pieces between `/`.
pub open spec fn base_name(path: Seq<char>) -> Option<Seq<char>> {
    last_component(split(path, '/'))
}

/// The name of the directory that `cwd` is the path of, as the project's
/// default name. Fails where there is no working directory or its path
/// names nothing.
pub fn get_project_name(cwd: Option<&str>) -> (result: Result<String, TicketError>)
    ensures
        match result {
            Ok(name) => cwd matches Some(path) && base_name(path@) == Some(name@),
            Err(e) => e == TicketError::CurrentDirectoryUnavailable && (cwd matches Some(path)
                ==> base_name(path@) is None),
        },
{
    let path = match cwd {
        Some(path) => path,
        None => {
            return Err(TicketError::CurrentDirectoryUnavailable);
        },
    };
    let chars = to_chars(path);
    let spans = split_spans(&chars, '/');
    let dot = to_chars(".");
    let dots = to_chars("..");
    let ghost pieces = split(path@, '/');
    let mut k: usize = spans.len();
    assert(pieces.take(k as int) =~= pieces);
    while k > 0
        invariant
            k <= spans.len(),
            cwd == Some(path),
            chars@ == path@,
            dot@ == "."@,
            dots@ == ".."@,
            pieces == split(path@, '/'),
            spans_are_pieces(spans@, chars@, '/'),
            last_component(pieces) == last_component(pieces.take(k as int)),
        decreases k,
    {
        k -= 1;
        let span = spans[k];
        proof {
            assert(pieces.take(k + 1).drop_last() =~= pieces.take(k as int));
            assert(pieces.take(k + 1).last() == pieces[k as int]);
            assert(pieces[k as int] == chars@.subrange(span.start as int, span.end as int));
        }
        if span.start == span.end || chars_eq(&chars, span.start, span.end, &dot) {
            // passed over
        } else if chars_eq(&chars, span.start, span.end, &dots) {
            return Err(TicketError::CurrentDirectoryUnavailable);
        } else {
            return Ok(cut(path, span.start, span.end));
        }
    }
    Err(TicketError::CurrentDirectoryUnavailable)
}

/// The project's name: what the configuration says under `project_name`,
/// or else the base name of the working directory.
pub open spec fn project_name_of(config: Seq<(Seq<char>, Seq<char>)>, cwd: Option<Seq<char>>)
    -> Option<Seq<char>> {
    match lookup(config, key_project_name()) {
        Some(name) => Some(name),
        None => match cwd {
            Some(path) => base_name(path),
            None => None,
        },
    }
}

/// The view of an optional path.
pub open spec fn path_view(path: Option<&str>) -> Option<Seq<char>> {
    match path {
        Some(text) => Some(text@),
        None => None,
    }
}

/// The project's name from the configuration, or else from the working
/// directory. Fails where neither gives one.
pub fn project_name(config: &Config, cwd: Option<&str>) -> (result: Result<String, TicketError>)
    ensures
        match result {
            Ok(name) => project_name_of(config@, path_view(cwd)) == Some(name@),
            Err(e) => e == TicketError::CurrentDirectoryUnavailable && project_name_of(
                config@,
                path_view(cwd),
            ) is None,
        },
{
    match config.get("project_name") {
        Some(name) => Ok(name),
        None => get_project_name(cwd),
    }
}

/// The directory that holds a project's tickets: the project's name below
/// the tickets' root.
pub open spec fn project_dir_of(root: Seq<char>, name: Seq<char>) -> Seq<char> {
    root + seq!['/'] + name
}

/// Where a project's tickets are kept, resolved once per invocation.
#[derive(Clone, Debug, PartialEq, Eq)]
pub struct ProjectContext {
    /// The directory that holds every project's tickets.
    pub tickets_root: String,
    /// The project's name.
    pub project_name: String,
    /// The project's configuration.
    pub config: Config,
}

impl ProjectContext {
    /// The directory that holds this project's tickets.
    pub fn project_dir(&self) -> (path: String)
        ensures
            path@ == project_dir_of(self.tickets_root@, self.project_name@),
    {
        proof {
            reveal_strlit("/");
        }
        let mut path = self.tickets_root.clone();
        path.append("/");
        path.append(self.project_name.as_str());
        assert("/"@ =~= seq!['/']);
        assert(path@ =~= project_dir_of(self.tickets_root@, self.project_name@));
        path
    }
}

/// The entries that the text of a configuration file gives; none where
/// there is no file.
pub open spec fn config_of(config_text: Option<Seq<char>>) -> Option<Seq<(Seq<char>, Seq<char>)>> {
    match config_text {
        Some(text) => parse_config_text(text),
        None => Some(Seq::empty()),
    }
}

/// What resolving a project gives for a home directory, the text of the
/// configuration file and the working directory: the tickets' root below
/// the home directory, the configuration, and the project's name; or the
/// failure, of which the first that applies is reported.
pub open spec fn resolved(
    home: Option<Seq<char>>,
    config_text: Option<Seq<char>>,
    cwd: Option<Seq<char>>,
    result: Result<ProjectContext, TicketError>,
) -> bool {
    match result {
        Ok(context) => {
            &&& home matches Some(dir) && context.tickets_root@ == joined(dir, tickets_dir_name())
            &&& config_of(config_text) == Some(context.config@)
            &&& project_name_of(context.config@, cwd) == Some(context.project_name@)
        },
        Err(e) => if home is None {
            e == TicketError::HomeDirectoryUnavailable
        } else if config_of(config_text) is None {
            e == TicketError::MalformedConfig
        } else {
            &&& e == TicketError::CurrentDirectoryUnavailable
            &&& project_name_of(config_of(config_text)->0, cwd) is None
        },
    }
}

/// Resolves the project from the home directory, the text of the
/// configuration file if there is one, and the working directory. Fails
/// with `HomeDirectoryUnavailable` where there is no home directory; else
/// with `MalformedConfig` where the configuration cannot be read; else with
/// `CurrentDirectoryUnavailable` where nothing names the project.
pub fn resolve(home: Option<&str>, config_text: Option<&str>, cwd: Option<&str>) -> (result:
    Result<ProjectContext, TicketError>)
    ensures
        resolved(path_view(home), path_view(config_text), path_view(cwd), result),
{
    let tickets_root = match tickets_root(home) {
        Ok(root) => root,
        Err(e) => {
            return Err(e);
        },
    };
    let config = match get_config(config_text) {
        Ok(config) => config,
        Err(e) => {
            return Err(e);
        },
    };
    proof {
        if config_text is None {
            assert(config@ =~= Seq::<(Seq<char>, Seq<char>)>::empty());
        }
        assert(config_of(path_view(config_text)) == Some(config@));
    }
    let project_name = match project_name(&config, cwd) {
        Ok(name) => name,
        Err(e) => {
            return Err(e);
        },
    };
    Ok(ProjectContext { tickets_root, project_name, config })
}


/// Resolves the project of the current user: as `resolve` does, with the
/// home directory that the operating system reports.
pub fn resolve_project(config_text: Option<&str>, cwd: Option<&str>) -> (result: Result<
    ProjectContext,
    TicketError,
>)
    ensures
        exists|home: Option<Seq<char>>|
            resolved(home, path_view(config_text), path_view(cwd), result),
{
    let home = home_dir();
    let result = match &home {
        Some(dir) => resolve(Some(dir.as_str()), config_text, cwd),
        None => resolve(None, config_text, cwd),
    };
    proof {
        let found: Option<Seq<char>> = match home {
            Some(dir) => Some(dir@),
            None => None,
        };
        assert(resolved(found, path_view(config_text), path_view(cwd), result));
    }
    result
}

} // verus!
