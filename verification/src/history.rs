//! The watch log (`ani-hsts`: episode, show id and title per line) and the
//! search log (`ani-search-hsts`: timestamp, query and context per line):
//! their line formats, how an update or a recorded query changes them, and
//! the stores that name the files.

use std::path::PathBuf;

use vstd::prelude::*;

use crate::error::{AniError, Result};
use crate::text::{
    chars_of, collapse_whitespace, collapse_ws, decimal_digits, lemma_run_until_exact, lines,
    lines_of, parse_u64, push_decimal, spec_parse_u64, split3, split3_of, string_of,
    strip_cr, views,
};

verus! {

#[verifier::external_type_specification]
#[verifier::external_body]
pub struct ExPathBuf(PathBuf);

#[verifier::external_type_specification]
#[verifier::external_body]
pub struct ExProjectDirs(directories::ProjectDirs);

// ---------- where the logs live ----------

/// `directories::ProjectDirs::from(qualifier, organization, application)`:
/// the application's platform directories, `None` where the platform gives
/// no home directory. The answer depends on the environment, so nothing is
/// stated of it.
#[verifier::external_body]
fn project_dirs(qualifier: &str, organization: &str, application: &str) -> (r: Option<
    directories::ProjectDirs,
>) {
    directories::ProjectDirs::from(qualifier, organization, application)
}

/// `ProjectDirs::state_dir`: the platform's state directory for the
/// application, where it has one (environment-dependent, not stated).
#[verifier::external_body]
fn project_state_dir(dirs: &directories::ProjectDirs) -> (r: Option<PathBuf>) {
    dirs.state_dir().map(|dir| dir.to_path_buf())
}

/// `ProjectDirs::data_local_dir`: the platform's local data directory for
/// the application (environment-dependent, not stated).
#[verifier::external_body]
fn project_data_local_dir(dirs: &directories::ProjectDirs) -> (r: PathBuf) {
    dirs.data_local_dir().to_path_buf()
}

/// The path `Path::join` gives for the file `name` inside `dir`.
pub uninterp spec fn joined_path(dir: PathBuf, name: Seq<char>) -> PathBuf;

/// `Path::join`: the path of the file `name` inside `dir`. Paths are opaque
/// here, so the result is named ([`joined_path`]), not described.
#[verifier::external_body]
fn file_in(dir: &PathBuf, name: &str) -> (r: PathBuf)
    ensures
        r == joined_path(*dir, name@),
{
    dir.join(name)
}

/// Where the logs live when no directory is given, from what the platform
/// reports (`found`: its state directory, if it has one, and its local data
/// directory; `None` where it has no directories for the application): the
/// state directory, else the local data directory.
pub open spec fn spec_platform_dir(found: Option<(Option<PathBuf>, PathBuf)>) -> Result<PathBuf> {
    match found {
        None => Err(AniError::HistoryStateDirectory),
        Some((Some(state), _)) => Ok(state),
        Some((None, data)) => Ok(data),
    }
}

/// Picks the log directory from what the platform reports (see
/// [`spec_platform_dir`]).
pub fn platform_dir(found: Option<(Option<PathBuf>, PathBuf)>) -> (r: Result<PathBuf>)
    ensures
        r == spec_platform_dir(found),
{
    match found {
        None => Err(AniError::HistoryStateDirectory),
        Some((Some(state), _)) => Ok(state),
        Some((None, data)) => Ok(data),
    }
}

/// The names the platform's directories for the logs are asked under:
/// qualifier `org`, organization `ani-cli`, application `ani-cli`. The
/// application name is what keeps the watch log where the Bash ani-cli
/// reads it.
pub fn history_project() -> (r: (&'static str, &'static str, &'static str))
    ensures
        r.0@ == "org"@,
        r.1@ == "ani-cli"@,
        r.2@ == "ani-cli"@,
{
    ("org", "ani-cli", "ani-cli")
}

/// Asks the platform for the directories of the application named by
/// `qualifier`, `organization` and `application`, handed on as they are:
/// its state directory, if it has one, and its local data directory;
/// `None` where it has none for the application. What comes back depends
/// on the environment, so nothing is stated of it.
pub fn platform_lookup(qualifier: &str, organization: &str, application: &str) -> (r: Option<
    (Option<PathBuf>, PathBuf),
>) {
    match project_dirs(qualifier, organization, application) {
        Some(dirs) => Some((project_state_dir(&dirs), project_data_local_dir(&dirs))),
        None => None,
    }
}

/// The directory both logs live in: `override_dir` (the value of
/// `ANI_CLI_HIST_DIR`) when given, else the platform's directory for the
/// application of [`history_project`], as [`platform_dir`] picks it from
/// what [`platform_lookup`] reports.
pub fn state_dir(override_dir: Option<PathBuf>) -> (r: Result<PathBuf>)
    ensures
        override_dir matches Some(d) ==> r == Ok::<PathBuf, AniError>(d),
        override_dir is None ==> exists|found: Option<(Option<PathBuf>, PathBuf)>|
            r == #[trigger] spec_platform_dir(found),
        r is Err ==> r == Err::<PathBuf, AniError>(AniError::HistoryStateDirectory),
{
    match override_dir {
        Some(dir) => Ok(dir),
        None => {
            let (qualifier, organization, application) = history_project();
            let found = platform_lookup(qualifier, organization, application);
            let r = platform_dir(found);
            assert(r == spec_platform_dir(found));
            r
        },
    }
}

/// Cap for the search-query log: recent queries beyond this are dropped
/// (oldest first).
pub const SEARCH_HISTORY_LIMIT: usize = 50;

// ---------- shared line helpers ----------

/// Tabs and newlines replaced by spaces, so that a field stays on its line.
pub open spec fn sanitize(s: Seq<char>) -> Seq<char> {
    Seq::new(s.len(), |i: int| if s[i] == '\t' || s[i] == '\n' { ' ' } else { s[i] })
}

pub open spec fn opt_seq<T>(o: Option<T>) -> Seq<T> {
    match o {
        Some(x) => seq![x],
        None => seq![],
    }
}

/// No tab or newline in a field.
pub open spec fn single_field(s: Seq<char>) -> bool {
    forall|k: int| 0 <= k < s.len() ==> #[trigger] s[k] != '\t' && s[k] != '\n'
}

/// A last field that survives line splitting: it does not end in `\r`.
pub open spec fn keeps_end(s: Seq<char>) -> bool {
    !(s.len() > 0 && s.last() == '\r')
}

fn push_all(out: &mut Vec<char>, s: &[char])
    ensures
        final(out)@ == old(out)@ + s@,
{
    let mut i: usize = 0;
    while i < s.len()
        invariant
            i <= s@.len(),
            out@ == old(out)@ + s@.take(i as int),
        decreases s@.len() - i,
    {
        out.push(s[i]);
        i = i + 1;
        assert(out@ =~= old(out)@ + s@.take(i as int));
    }
    assert(s@.take(i as int) =~= s@);
}

fn push_sanitized(out: &mut Vec<char>, s: &[char])
    ensures
        final(out)@ == old(out)@ + sanitize(s@),
{
    let mut i: usize = 0;
    while i < s.len()
        invariant
            i <= s@.len(),
            out@ == old(out)@ + sanitize(s@.take(i as int)),
        decreases s@.len() - i,
    {
        let c = s[i];
        if c == '\t' || c == '\n' {
            out.push(' ');
        } else {
            out.push(c);
        }
        i = i + 1;
        assert(out@ =~= old(out)@ + sanitize(s@.take(i as int)));
    }
    assert(s@.take(i as int) =~= s@);
}

/// `body` followed by a newline and `rest` splits into `body` (less a final
/// `\r`) and the lines of `rest`.
pub proof fn lemma_lines_first(body: Seq<char>, rest: Seq<char>)
    requires
        forall|k: int| 0 <= k < body.len() ==> #[trigger] body[k] != '\n',
    ensures
        lines(body + seq!['\n'] + rest) == seq![strip_cr(body)] + lines(rest),
{
    let s = body + seq!['\n'] + rest;
    assert forall|k: int| 0 <= k < body.len() implies #[trigger] s[k] != '\n' by {
        assert(s[k] == body[k]);
    }
    assert(s[body.len() as int] == '\n');
    lemma_run_until_exact(s, '\n', body.len() as int);
    assert(s.take(body.len() as int) =~= body);
    assert(s.skip(body.len() + 1int) =~= rest);
}

/// Three single fields joined by tabs split back into those fields.
pub proof fn lemma_split3_fields(a: Seq<char>, b: Seq<char>, c: Seq<char>)
    requires
        single_field(a),
        single_field(b),
    ensures
        split3(a + seq!['\t'] + b + seq!['\t'] + c, '\t') == Some((a, b, c)),
{
    let l = a + seq!['\t'] + b + seq!['\t'] + c;
    assert forall|k: int| 0 <= k < a.len() implies #[trigger] l[k] != '\t' by {
        assert(l[k] == a[k]);
    }
    assert(l[a.len() as int] == '\t');
    lemma_run_until_exact(l, '\t', a.len() as int);
    let rest = l.skip(a.len() + 1int);
    assert(rest =~= b + seq!['\t'] + c);
    assert forall|k: int| 0 <= k < b.len() implies #[trigger] rest[k] != '\t' by {
        assert(rest[k] == b[k]);
    }
    assert(rest[b.len() as int] == '\t');
    lemma_run_until_exact(rest, '\t', b.len() as int);
    assert(l.take(a.len() as int) =~= a);
    assert(rest.take(b.len() as int) =~= b);
    assert(rest.skip(b.len() + 1int) =~= c);
}

pub proof fn lemma_sanitize_single(s: Seq<char>)
    ensures
        single_field(sanitize(s)),
        keeps_end(s) ==> keeps_end(sanitize(s)),
        single_field(s) ==> sanitize(s) == s,
{
    if single_field(s) {
        assert(sanitize(s) =~= s);
    }
}

// ---------- the watch log ----------

/// One watched show: the last episode, the show id and the title.
#[derive(Clone, Debug, PartialEq, Eq)]
pub struct HistoryEntry {
    pub episode: String,
    pub show_id: String,
    pub title: String,
}

pub open spec fn entry_view(e: HistoryEntry) -> (Seq<char>, Seq<char>, Seq<char>) {
    (e.episode@, e.show_id@, e.title@)
}

pub open spec fn entries_view(v: Seq<HistoryEntry>) -> Seq<(Seq<char>, Seq<char>, Seq<char>)> {
    Seq::new(v.len(), |i: int| entry_view(v[i]))
}

/// The entries that lines spell: every line with at least two tabs gives
/// one entry (the third field keeps any further tabs); others are skipped.
pub open spec fn parsed_history(ls: Seq<Seq<char>>) -> Seq<(Seq<char>, Seq<char>, Seq<char>)>
    decreases ls.len(),
{
    if ls.len() == 0 {
        seq![]
    } else {
        opt_seq(split3(ls[0], '\t')) + parsed_history(ls.drop_first())
    }
}

pub open spec fn spec_parse_history(text: Seq<char>) -> Seq<(Seq<char>, Seq<char>, Seq<char>)> {
    parsed_history(lines(text))
}

/// The line of one entry: episode, show id and the title with tabs and
/// newlines made spaces, separated by tabs and ended by a newline.
pub open spec fn history_line(e: (Seq<char>, Seq<char>, Seq<char>)) -> Seq<char> {
    e.0 + seq!['\t'] + e.1 + seq!['\t'] + sanitize(e.2) + seq!['\n']
}

pub open spec fn spec_render_history(es: Seq<(Seq<char>, Seq<char>, Seq<char>)>) -> Seq<char>
    decreases es.len(),
{
    if es.len() == 0 {
        seq![]
    } else {
        history_line(es[0]) + spec_render_history(es.drop_first())
    }
}

pub proof fn lemma_parsed_history_concat(a: Seq<Seq<char>>, b: Seq<Seq<char>>)
    ensures
        parsed_history(a + b) == parsed_history(a) + parsed_history(b),
    decreases a.len(),
{
    if a.len() == 0 {
        assert(a + b =~= b);
    } else {
        lemma_parsed_history_concat(a.drop_first(), b);
        assert((a + b).drop_first() =~= a.drop_first() + b);
        assert((a + b)[0] == a[0]);
    }
}

pub proof fn lemma_render_history_concat(
    a: Seq<(Seq<char>, Seq<char>, Seq<char>)>,
    b: Seq<(Seq<char>, Seq<char>, Seq<char>)>,
)
    ensures
        spec_render_history(a + b) == spec_render_history(a) + spec_render_history(b),
    decreases a.len(),
{
    if a.len() == 0 {
        assert(a + b =~= b);
        assert(spec_render_history(a) =~= Seq::<char>::empty());
    } else {
        lemma_render_history_concat(a.drop_first(), b);
        assert((a + b).drop_first() =~= a.drop_first() + b);
        assert((a + b)[0] == a[0]);
    }
}

/// Reads the watch log (see [`spec_parse_history`]).
pub fn parse_history(text: &str) -> (r: Vec<HistoryEntry>)
    ensures
        entries_view(r@) == spec_parse_history(text@),
{
    let chars = chars_of(text);
    let ls = lines_of(&chars);
    let mut out: Vec<HistoryEntry> = Vec::new();
    let mut i: usize = 0;
    while i < ls.len()
        invariant
            i <= ls@.len(),
            views(ls@) == lines(text@),
            entries_view(out@) == parsed_history(views(ls@).take(i as int)),
        decreases ls@.len() - i,
    {
        let ghost prev = out@;
        proof {
            lemma_parsed_history_concat(views(ls@).take(i as int), seq![views(ls@)[i as int]]);
            assert(views(ls@).take(i + 1) =~= views(ls@).take(i as int) + seq![
                views(ls@)[i as int],
            ]);
            let x = views(ls@)[i as int];
            assert(seq![x].drop_first() =~= Seq::<Seq<char>>::empty());
            assert(parsed_history(Seq::<Seq<char>>::empty()) == Seq::<(Seq<char>, Seq<char>, Seq<char>)>::empty());
            assert(parsed_history(seq![x]) =~= opt_seq(split3(x, '\t')));
            assert(x == ls@[i as int]@);
        }
        match split3_of(&ls[i], '\t') {
            Some((a, b, c)) => {
                let e = HistoryEntry { episode: string_of(&a), show_id: string_of(&b), title: string_of(&c) };
                out.push(e);
                assert(entries_view(out@) =~= entries_view(prev).push(entry_view(e)));
            },
            None => {},
        }
        i = i + 1;
        assert(entries_view(out@) =~= parsed_history(views(ls@).take(i as int)));
    }
    assert(views(ls@).take(i as int) =~= views(ls@));
    out
}

/// Writes the watch log (see [`spec_render_history`]).
pub fn render_history(entries: &[HistoryEntry]) -> (r: String)
    ensures
        r@ == spec_render_history(entries_view(entries@)),
{
    let mut out: Vec<char> = Vec::new();
    let mut i: usize = 0;
    while i < entries.len()
        invariant
            i <= entries@.len(),
            out@ == spec_render_history(entries_view(entries@).take(i as int)),
        decreases entries@.len() - i,
    {
        let e = &entries[i];
        let ghost prev = out@;
        push_all(&mut out, &chars_of(e.episode.as_str()));
        out.push('\t');
        push_all(&mut out, &chars_of(e.show_id.as_str()));
        out.push('\t');
        push_sanitized(&mut out, &chars_of(e.title.as_str()));
        out.push('\n');
        proof {
            let ev = entries_view(entries@);
            assert(ev.take(i + 1) =~= ev.take(i as int) + seq![ev[i as int]]);
            lemma_render_history_concat(ev.take(i as int), seq![ev[i as int]]);
            let x = ev[i as int];
            assert(seq![x].drop_first() =~= Seq::<(Seq<char>, Seq<char>, Seq<char>)>::empty());
            assert(spec_render_history(Seq::<(Seq<char>, Seq<char>, Seq<char>)>::empty()) == Seq::<char>::empty());
            assert(spec_render_history(seq![x]) =~= history_line(x));
            assert(out@ =~= prev + history_line(ev[i as int]));
        }
        i = i + 1;
    }
    assert(entries_view(entries@).take(i as int) =~= entries_view(entries@));
    string_of(&out)
}

/// The entries with each title's tabs and newlines made spaces.
pub open spec fn sanitized_entries(es: Seq<(Seq<char>, Seq<char>, Seq<char>)>) -> Seq<
    (Seq<char>, Seq<char>, Seq<char>),
> {
    Seq::new(es.len(), |i: int| (es[i].0, es[i].1, sanitize(es[i].2)))
}

pub open spec fn storable_entry(e: (Seq<char>, Seq<char>, Seq<char>)) -> bool {
    single_field(e.0) && single_field(e.1) && keeps_end(e.2)
}

/// Reading back a written watch log gives the entries that were written
/// (titles with tabs and newlines made spaces), provided that no episode
/// or show id holds a tab or a newline and no title ends in `\r`.
pub proof fn history_round_trip(es: Seq<(Seq<char>, Seq<char>, Seq<char>)>)
    requires
        forall|k: int| 0 <= k < es.len() ==> storable_entry(#[trigger] es[k]),
    ensures
        spec_parse_history(spec_render_history(es)) == sanitized_entries(es),
    decreases es.len(),
{
    if es.len() == 0 {
        assert(spec_render_history(es) =~= Seq::<char>::empty());
        assert(sanitized_entries(es) =~= Seq::<(Seq<char>, Seq<char>, Seq<char>)>::empty());
    } else {
        let e = es[0];
        let rest = es.drop_first();
        assert forall|k: int| 0 <= k < rest.len() implies storable_entry(#[trigger] rest[k]) by {
            assert(rest[k] == es[k + 1]);
        }
        history_round_trip(rest);
        let body = e.0 + seq!['\t'] + e.1 + seq!['\t'] + sanitize(e.2);
        assert(storable_entry(e));
        lemma_sanitize_single(e.2);
        assert forall|k: int| 0 <= k < body.len() implies #[trigger] body[k] != '\n' by {
            if k < e.0.len() {
                assert(body[k] == e.0[k]);
            } else if k == e.0.len() {
            } else if k < e.0.len() + 1 + e.1.len() {
                assert(body[k] == e.1[k - e.0.len() - 1]);
            } else if k == e.0.len() + 1 + e.1.len() {
            } else {
                assert(body[k] == sanitize(e.2)[k - e.0.len() - 2 - e.1.len()]);
            }
        }
        assert(history_line(e) =~= body + seq!['\n']);
        assert(spec_render_history(es) == history_line(e) + spec_render_history(rest));
        assert(spec_render_history(es) =~= body + seq!['\n'] + spec_render_history(rest));
        lemma_lines_first(body, spec_render_history(rest));
        assert(strip_cr(body) == body) by {
            if sanitize(e.2).len() > 0 {
                assert(body.last() == sanitize(e.2).last());
            }
        }
        lemma_split3_fields(e.0, e.1, sanitize(e.2));
        let ls = lines(spec_render_history(es));
        assert(ls =~= seq![body] + lines(spec_render_history(rest)));
        assert(ls.drop_first() =~= lines(spec_render_history(rest)));
        assert(parsed_history(ls) =~= seq![(e.0, e.1, sanitize(e.2))] + sanitized_entries(rest));
        assert(sanitized_entries(es) =~= seq![(e.0, e.1, sanitize(e.2))] + sanitized_entries(rest));
    }
}

/// Index of the first entry of show `id`.
pub open spec fn show_pos(es: Seq<(Seq<char>, Seq<char>, Seq<char>)>, id: Seq<char>) -> Option<int>
    decreases es.len(),
{
    if es.len() == 0 {
        None
    } else if es[0].1 == id {
        Some(0)
    } else {
        match show_pos(es.drop_first(), id) {
            Some(k) => Some(k + 1),
            None => None,
        }
    }
}

pub proof fn lemma_show_pos(es: Seq<(Seq<char>, Seq<char>, Seq<char>)>, id: Seq<char>)
    ensures
        match show_pos(es, id) {
            Some(k) => 0 <= k < es.len() && es[k].1 == id && forall|j: int|
                0 <= j < k ==> (#[trigger] es[j]).1 != id,
            None => forall|j: int| 0 <= j < es.len() ==> (#[trigger] es[j]).1 != id,
        },
    decreases es.len(),
{
    if es.len() > 0 && es[0].1 != id {
        lemma_show_pos(es.drop_first(), id);
        assert forall|j: int| 0 < j < es.len() implies (#[trigger] es[j]) == es.drop_first()[j - 1] by {}
    }
}

pub proof fn lemma_show_pos_exact(es: Seq<(Seq<char>, Seq<char>, Seq<char>)>, id: Seq<char>, k: int)
    requires
        0 <= k <= es.len(),
        forall|j: int| 0 <= j < k ==> (#[trigger] es[j]).1 != id,
        k < es.len() ==> es[k].1 == id,
    ensures
        show_pos(es, id) == (if k < es.len() { Some(k) } else { None::<int> }),
    decreases k,
{
    if k > 0 {
        assert forall|j: int| 0 <= j < k - 1 implies (#[trigger] es.drop_first()[j]).1 != id by {
            assert(es.drop_first()[j] == es[j + 1]);
        }
        lemma_show_pos_exact(es.drop_first(), id, k - 1);
    }
}

/// The watch log after watching `e`: the first entry of the same show is
/// replaced, or `e` is appended when the show is new.
pub open spec fn spec_updated(
    es: Seq<(Seq<char>, Seq<char>, Seq<char>)>,
    e: (Seq<char>, Seq<char>, Seq<char>),
) -> Seq<(Seq<char>, Seq<char>, Seq<char>)> {
    match show_pos(es, e.1) {
        Some(k) => es.update(k, e),
        None => es.push(e),
    }
}

/// No field of an entry is empty.
pub open spec fn valid_entry(e: (Seq<char>, Seq<char>, Seq<char>)) -> bool {
    e.0.len() > 0 && e.1.len() > 0 && e.2.len() > 0
}

pub open spec fn empty_field_message() -> Seq<char> {
    "history entry contains an empty field"@
}

/// Refuses an entry with an empty field.
pub fn validate_entry(entry: &HistoryEntry) -> (r: Result<()>)
    ensures
        valid_entry(entry_view(*entry)) ==> r is Ok,
        !valid_entry(entry_view(*entry)) ==> (r matches Err(AniError::History(m)) && m@
            == empty_field_message()),
{
    if entry.episode.as_str().unicode_len() == 0 || entry.show_id.as_str().unicode_len() == 0
        || entry.title.as_str().unicode_len() == 0 {
        Err(AniError::History("history entry contains an empty field".to_owned()))
    } else {
        Ok(())
    }
}

/// The watch log after watching `entry` (see [`spec_updated`]); an entry
/// with an empty field is refused.
#[verifier::loop_isolation(false)]
pub fn updated_history(entries: Vec<HistoryEntry>, entry: HistoryEntry) -> (r: Result<
    Vec<HistoryEntry>,
>)
    ensures
        valid_entry(entry_view(entry)) ==> (r matches Ok(v) && entries_view(v@) == spec_updated(
            entries_view(entries@),
            entry_view(entry),
        )),
        !valid_entry(entry_view(entry)) ==> (r matches Err(AniError::History(m)) && m@
            == empty_field_message()),
{
    validate_entry(&entry)?;
    let ghost ev = entries_view(entries@);
    let mut entries = entries;
    let mut i: usize = 0;
    while i < entries.len()
        invariant
            i <= entries@.len(),
            ev == entries_view(entries@),
            forall|j: int| 0 <= j < i ==> (#[trigger] ev[j]).1 != entry.show_id@,
        decreases entries@.len() - i,
    {
        if entries[i].show_id == entry.show_id {
            proof {
                lemma_show_pos_exact(ev, entry.show_id@, i as int);
            }
            let ghost e = entry_view(entry);
            entries.set(i, entry);
            assert(entries_view(entries@) =~= ev.update(i as int, e));
            return Ok(entries);
        }
        i = i + 1;
    }
    proof {
        lemma_show_pos_exact(ev, entry.show_id@, i as int);
    }
    let ghost e = entry_view(entry);
    entries.push(entry);
    assert(entries_view(entries@) =~= ev.push(e));
    Ok(entries)
}

pub open spec fn unique_shows(es: Seq<(Seq<char>, Seq<char>, Seq<char>)>) -> bool {
    forall|a: int, b: int| 0 <= a < b < es.len() ==> (#[trigger] es[a]).1 != (#[trigger] es[b]).1
}

/// Watching keeps one entry per show: the log holds the watched entry, and
/// show ids that were unique stay unique.
pub proof fn update_keeps_one_entry_per_show(
    es: Seq<(Seq<char>, Seq<char>, Seq<char>)>,
    e: (Seq<char>, Seq<char>, Seq<char>),
)
    requires
        unique_shows(es),
    ensures
        unique_shows(spec_updated(es, e)),
        spec_updated(es, e).contains(e),
        spec_updated(es, e).len() == es.len() + (if show_pos(es, e.1) is Some { 0int } else { 1 }),
{
    lemma_show_pos(es, e.1);
    let r = spec_updated(es, e);
    match show_pos(es, e.1) {
        Some(k) => {
            assert(r[k] == e);
            assert forall|a: int, b: int| 0 <= a < b < r.len() implies (#[trigger] r[a]).1
                != (#[trigger] r[b]).1 by {
                if a == k {
                    assert(es[b].1 != es[k].1);
                } else if b == k {
                    assert(es[a].1 != es[k].1);
                } else {
                    assert(r[a] == es[a] && r[b] == es[b]);
                }
            }
        },
        None => {
            assert(r[es.len() as int] == e);
        },
    }
}

/// Watching the same entry twice changes the log once.
pub proof fn update_is_idempotent(
    es: Seq<(Seq<char>, Seq<char>, Seq<char>)>,
    e: (Seq<char>, Seq<char>, Seq<char>),
)
    ensures
        spec_updated(spec_updated(es, e), e) == spec_updated(es, e),
{
    lemma_show_pos(es, e.1);
    let r = spec_updated(es, e);
    match show_pos(es, e.1) {
        Some(k) => {
            assert forall|j: int| 0 <= j < k implies (#[trigger] r[j]).1 != e.1 by {
                assert(r[j] == es[j]);
            }
            lemma_show_pos_exact(r, e.1, k);
            assert(r.update(k, e) =~= r);
        },
        None => {
            let k = es.len() as int;
            assert forall|j: int| 0 <= j < k implies (#[trigger] r[j]).1 != e.1 by {
                assert(r[j] == es[j]);
            }
            lemma_show_pos_exact(r, e.1, k);
            assert(r.update(k, e) =~= r);
        },
    }
}


/// Watching `e` and reading the watch log back gives the old log updated
/// with `e` (its title's tabs and newlines made spaces), provided the old
/// log was storable and its titles hold no tab or newline (as a log read
/// from the file does), and `e` is storable.
pub proof fn update_then_read_gives_updated_log(
    es: Seq<(Seq<char>, Seq<char>, Seq<char>)>,
    e: (Seq<char>, Seq<char>, Seq<char>),
)
    requires
        forall|k: int| 0 <= k < es.len() ==> storable_entry(#[trigger] es[k]) && single_field(
            es[k].2,
        ),
        storable_entry(e),
    ensures
        spec_parse_history(spec_render_history(spec_updated(es, e))) == spec_updated(
            es,
            (e.0, e.1, sanitize(e.2)),
        ),
{
    let e2 = (e.0, e.1, sanitize(e.2));
    let u = spec_updated(es, e);
    let u2 = spec_updated(es, e2);
    lemma_sanitize_single(e.2);
    lemma_show_pos(es, e.1);
    assert forall|k: int| 0 <= k < u.len() implies storable_entry(#[trigger] u[k]) && (u[k] == e
        || single_field(u[k].2)) by {
        match show_pos(es, e.1) {
            Some(p) => {
                if k != p {
                    assert(u[k] == es[k]);
                }
            },
            None => {
                if k < es.len() {
                    assert(u[k] == es[k]);
                }
            },
        }
    }
    history_round_trip(u);
    assert forall|k: int| 0 <= k < u.len() implies #[trigger] sanitized_entries(u)[k] == u2[k] by {
        lemma_sanitize_single(u[k].2);
        match show_pos(es, e.1) {
            Some(p) => {
                if k != p {
                    assert(u[k] == es[k]);
                }
            },
            None => {
                if k < es.len() {
                    assert(u[k] == es[k]);
                }
            },
        }
    }
    assert(sanitized_entries(u) =~= u2);
}

/// The watch-log file.
#[derive(Debug)]
pub struct HistoryStore {
    path: PathBuf,
}

impl HistoryStore {
    pub closed spec fn location(self) -> PathBuf {
        self.path
    }

    pub fn new(path: PathBuf) -> (s: Self)
        ensures
            s.location() == path,
    {
        HistoryStore { path }
    }

    pub fn path(&self) -> (p: &PathBuf)
        ensures
            *p == self.location(),
    {
        &self.path
    }

    /// The watch log `ani-hsts` in the [`state_dir`] for `override_dir`.
    pub fn platform_default(override_dir: Option<PathBuf>) -> (r: Result<Self>)
        ensures
            override_dir matches Some(d) ==> (r matches Ok(s) && s.location() == joined_path(
                d,
                "ani-hsts"@,
            )),
            override_dir is None ==> exists|found: Option<(Option<PathBuf>, PathBuf)>|
                Self::placed(r, #[trigger] spec_platform_dir(found)),
            r is Err ==> override_dir is None && r matches Err(AniError::HistoryStateDirectory),
    {
        let ghost none = override_dir is None;
        let dir = state_dir(override_dir);
        let ghost found = choose|found: Option<(Option<PathBuf>, PathBuf)>|
            dir == spec_platform_dir(found);
        let dir = match dir {
            Ok(d) => d,
            Err(e) => {
                assert(none ==> Self::placed(Err(e), spec_platform_dir(found)));
                return Err(e);
            },
        };
        let path = file_in(&dir, "ani-hsts");
        let r = Ok(Self::new(path));
        assert(none ==> Self::placed(r, spec_platform_dir(found)));
        r
    }

    /// The log is the file `ani-hsts` in the directory `dir`, or `dir`'s error.
    pub open spec fn placed(r: Result<Self>, dir: Result<PathBuf>) -> bool {
        match dir {
            Ok(d) => r matches Ok(s) && s.location() == joined_path(d, "ani-hsts"@),
            Err(e) => r == Err::<Self, AniError>(e),
        }
    }
}

// ---------- the search log ----------

/// One remembered search: the query, the catalog scope it ran in and when.
#[derive(Clone, Debug, PartialEq, Eq)]
pub struct SearchEntry {
    pub query: String,
    pub context: String,
    pub timestamp: u64,
}

fn copy_search(e: &SearchEntry) -> (r: SearchEntry)
    ensures
        r == *e,
{
    SearchEntry { query: e.query.clone(), context: e.context.clone(), timestamp: e.timestamp }
}

pub open spec fn search_view(e: SearchEntry) -> (Seq<char>, Seq<char>, u64) {
    (e.query@, e.context@, e.timestamp)
}

pub open spec fn searches_view(v: Seq<SearchEntry>) -> Seq<(Seq<char>, Seq<char>, u64)> {
    Seq::new(v.len(), |i: int| search_view(v[i]))
}

/// The search a line spells: `timestamp<TAB>query<TAB>context` with a
/// timestamp that parses as a `u64` and a non-empty query.
pub open spec fn search_from_line(l: Seq<char>) -> Option<(Seq<char>, Seq<char>, u64)> {
    match split3(l, '\t') {
        Some((t, q, c)) => match spec_parse_u64(t) {
            Some(ts) => if q.len() > 0 {
                Some((q, c, ts))
            } else {
                None
            },
            None => None,
        },
        None => None,
    }
}

pub open spec fn parsed_searches(ls: Seq<Seq<char>>) -> Seq<(Seq<char>, Seq<char>, u64)>
    decreases ls.len(),
{
    if ls.len() == 0 {
        seq![]
    } else {
        opt_seq(search_from_line(ls[0])) + parsed_searches(ls.drop_first())
    }
}

/// The search log read newest-first: the well-formed lines, last line first.
pub open spec fn spec_parse_search_history(text: Seq<char>) -> Seq<(Seq<char>, Seq<char>, u64)> {
    parsed_searches(lines(text)).reverse()
}

pub open spec fn search_line(e: (Seq<char>, Seq<char>, u64)) -> Seq<char> {
    decimal_digits(e.2 as nat) + seq!['\t'] + sanitize(e.0) + seq!['\t'] + sanitize(e.1) + seq![
        '\n',
    ]
}

pub open spec fn rendered_searches(es: Seq<(Seq<char>, Seq<char>, u64)>) -> Seq<char>
    decreases es.len(),
{
    if es.len() == 0 {
        seq![]
    } else {
        search_line(es[0]) + rendered_searches(es.drop_first())
    }
}

/// The search log written from newest-first entries: oldest line first.
pub open spec fn spec_render_search_history(newest_first: Seq<(Seq<char>, Seq<char>, u64)>) -> Seq<
    char,
> {
    rendered_searches(newest_first.reverse())
}

pub proof fn lemma_parsed_searches_concat(a: Seq<Seq<char>>, b: Seq<Seq<char>>)
    ensures
        parsed_searches(a + b) == parsed_searches(a) + parsed_searches(b),
    decreases a.len(),
{
    if a.len() == 0 {
        assert(a + b =~= b);
    } else {
        lemma_parsed_searches_concat(a.drop_first(), b);
        assert((a + b).drop_first() =~= a.drop_first() + b);
        assert((a + b)[0] == a[0]);
    }
}

pub proof fn lemma_rendered_searches_concat(
    a: Seq<(Seq<char>, Seq<char>, u64)>,
    b: Seq<(Seq<char>, Seq<char>, u64)>,
)
    ensures
        rendered_searches(a + b) == rendered_searches(a) + rendered_searches(b),
    decreases a.len(),
{
    if a.len() == 0 {
        assert(a + b =~= b);
        assert(rendered_searches(a) =~= Seq::<char>::empty());
    } else {
        lemma_rendered_searches_concat(a.drop_first(), b);
        assert((a + b).drop_first() =~= a.drop_first() + b);
        assert((a + b)[0] == a[0]);
    }
}

/// Reads the search log newest-first (see [`spec_parse_search_history`]).
pub fn parse_search_history(text: &str) -> (r: Vec<SearchEntry>)
    ensures
        searches_view(r@) == spec_parse_search_history(text@),
{
    let chars = chars_of(text);
    let ls = lines_of(&chars);
    let mut out: Vec<SearchEntry> = Vec::new();
    let mut i: usize = 0;
    while i < ls.len()
        invariant
            i <= ls@.len(),
            views(ls@) == lines(text@),
            searches_view(out@) == parsed_searches(views(ls@).take(i as int)),
        decreases ls@.len() - i,
    {
        let ghost prev = out@;
        proof {
            lemma_parsed_searches_concat(views(ls@).take(i as int), seq![views(ls@)[i as int]]);
            assert(views(ls@).take(i + 1) =~= views(ls@).take(i as int) + seq![
                views(ls@)[i as int],
            ]);
            let x = views(ls@)[i as int];
            assert(seq![x].drop_first() =~= Seq::<Seq<char>>::empty());
            assert(parsed_searches(Seq::<Seq<char>>::empty()) == Seq::<
                (Seq<char>, Seq<char>, u64),
            >::empty());
            assert(parsed_searches(seq![x]) =~= opt_seq(search_from_line(x)));
            assert(x == ls@[i as int]@);
        }
        match split3_of(&ls[i], '\t') {
            Some((t, q, c)) => {
                match parse_u64(&t) {
                    Some(ts) => {
                        if q.len() > 0 {
                            let e = SearchEntry {
                                query: string_of(&q),
                                context: string_of(&c),
                                timestamp: ts,
                            };
                            out.push(e);
                            assert(searches_view(out@) =~= searches_view(prev).push(
                                search_view(e),
                            ));
                        }
                    },
                    None => {},
                }
            },
            None => {},
        }
        i = i + 1;
        assert(searches_view(out@) =~= parsed_searches(views(ls@).take(i as int)));
    }
    assert(views(ls@).take(i as int) =~= views(ls@));
    let ghost oldest_first = searches_view(out@);
    let mut newest: Vec<SearchEntry> = Vec::new();
    let mut k: usize = out.len();
    while k > 0
        invariant
            k <= out@.len(),
            oldest_first == searches_view(out@),
            searches_view(newest@) =~= oldest_first.reverse().take(out@.len() - k),
        decreases k,
    {
        k = k - 1;
        let e = copy_search(&out[k]);
        let ghost prev = newest@;
        newest.push(e);
        assert(searches_view(newest@) =~= searches_view(prev).push(search_view(e)));
        assert(oldest_first.reverse().take(out@.len() - k) =~= oldest_first.reverse().take(
            out@.len() - k - 1,
        ).push(oldest_first[k as int]));
    }
    assert(oldest_first.reverse().take(out@.len() as int) =~= oldest_first.reverse());
    newest
}

/// Writes the search log from newest-first entries (see
/// [`spec_render_search_history`]).
pub fn render_search_history(newest_first: &[SearchEntry]) -> (r: String)
    ensures
        r@ == spec_render_search_history(searches_view(newest_first@)),
{
    let ghost es = searches_view(newest_first@).reverse();
    let n = newest_first.len();
    let mut out: Vec<char> = Vec::new();
    let mut i: usize = 0;
    while i < n
        invariant
            n == newest_first@.len(),
            i <= n,
            es == searches_view(newest_first@).reverse(),
            out@ == rendered_searches(es.take(i as int)),
        decreases n - i,
    {
        let e = &newest_first[n - 1 - i];
        let ghost prev = out@;
        push_decimal(&mut out, e.timestamp);
        out.push('\t');
        push_sanitized(&mut out, &chars_of(e.query.as_str()));
        out.push('\t');
        push_sanitized(&mut out, &chars_of(e.context.as_str()));
        out.push('\n');
        proof {
            let x = es[i as int];
            assert(x == search_view(newest_first@[n - 1 - i]));
            assert(es.take(i + 1) =~= es.take(i as int) + seq![x]);
            lemma_rendered_searches_concat(es.take(i as int), seq![x]);
            assert(seq![x].drop_first() =~= Seq::<(Seq<char>, Seq<char>, u64)>::empty());
            assert(rendered_searches(Seq::<(Seq<char>, Seq<char>, u64)>::empty())
                == Seq::<char>::empty());
            assert(rendered_searches(seq![x]) =~= search_line(x));
            assert(out@ =~= prev + search_line(x));
        }
        i = i + 1;
    }
    assert(es.take(n as int) =~= es);
    string_of(&out)
}

/// The entries without those of query `q`.
pub open spec fn without_query(es: Seq<(Seq<char>, Seq<char>, u64)>, q: Seq<char>) -> Seq<
    (Seq<char>, Seq<char>, u64),
>
    decreases es.len(),
{
    if es.len() == 0 {
        seq![]
    } else {
        (if es[0].0 == q {
            seq![]
        } else {
            seq![es[0]]
        }) + without_query(es.drop_first(), q)
    }
}

pub proof fn lemma_without_query_concat(
    a: Seq<(Seq<char>, Seq<char>, u64)>,
    b: Seq<(Seq<char>, Seq<char>, u64)>,
    q: Seq<char>,
)
    ensures
        without_query(a + b, q) == without_query(a, q) + without_query(b, q),
    decreases a.len(),
{
    if a.len() == 0 {
        assert(a + b =~= b);
    } else {
        lemma_without_query_concat(a.drop_first(), b, q);
        assert((a + b).drop_first() =~= a.drop_first() + b);
        assert((a + b)[0] == a[0]);
    }
}

pub proof fn lemma_without_query(es: Seq<(Seq<char>, Seq<char>, u64)>, q: Seq<char>)
    ensures
        without_query(es, q).len() <= es.len(),
        forall|k: int|
            0 <= k < without_query(es, q).len() ==> (#[trigger] without_query(es, q)[k]).0 != q
                && es.contains(without_query(es, q)[k]),
    decreases es.len(),
{
    if es.len() > 0 {
        lemma_without_query(es.drop_first(), q);
        let w = without_query(es, q);
        let rest = without_query(es.drop_first(), q);
        assert forall|k: int| 0 <= k < w.len() implies (#[trigger] w[k]).0 != q && es.contains(
            w[k],
        ) by {
            if es[0].0 == q {
                assert(w[k] == rest[k]);
                assert(es.drop_first().contains(rest[k]));
                let j = choose|j: int| 0 <= j < es.drop_first().len() && es.drop_first()[j] == rest[k];
                assert(es[j + 1] == rest[k]);
            } else if k == 0 {
                assert(es[0] == w[0]);
            } else {
                assert(w[k] == rest[k - 1]);
                assert(es.drop_first().contains(rest[k - 1]));
                let j = choose|j: int|
                    0 <= j < es.drop_first().len() && es.drop_first()[j] == rest[k - 1];
                assert(es[j + 1] == rest[k - 1]);
            }
        }
    }
}

/// The search log after recording query `q` in scope `c` at time `t`
/// (newest first): the new entry first, then the older entries of other
/// queries, cut to [`SEARCH_HISTORY_LIMIT`] entries.
pub open spec fn spec_recorded(
    es: Seq<(Seq<char>, Seq<char>, u64)>,
    q: Seq<char>,
    c: Seq<char>,
    t: u64,
) -> Seq<(Seq<char>, Seq<char>, u64)> {
    let all = seq![(q, c, t)] + without_query(es, q);
    if all.len() > SEARCH_HISTORY_LIMIT {
        all.take(SEARCH_HISTORY_LIMIT as int)
    } else {
        all
    }
}

/// The entries of a search log whose query is not `q`, in their order.
proof fn lemma_without_query_filter(es: Seq<(Seq<char>, Seq<char>, u64)>, q: Seq<char>)
    ensures
        without_query(es, q) == es.filter(|e: (Seq<char>, Seq<char>, u64)| e.0 != q),
    decreases es.len(),
{
    reveal(Seq::filter);
    if es.len() > 0 {
        let init = es.drop_last();
        let x = es.last();
        lemma_without_query_filter(init, q);
        assert(es =~= init + seq![x]);
        lemma_without_query_concat(init, seq![x], q);
        assert(seq![x].drop_first() =~= Seq::<(Seq<char>, Seq<char>, u64)>::empty());
        assert(without_query(Seq::<(Seq<char>, Seq<char>, u64)>::empty(), q)
            == Seq::<(Seq<char>, Seq<char>, u64)>::empty());
        if x.0 == q {
            assert(without_query(seq![x], q) =~= Seq::<(Seq<char>, Seq<char>, u64)>::empty());
            assert(without_query(es, q) =~= without_query(init, q));
        } else {
            assert(without_query(seq![x], q) =~= seq![x]);
            assert(without_query(es, q) =~= without_query(init, q).push(x));
        }
    }
}

/// Recording query `q` in a newest-first log puts the new entry first,
/// then the old entries of other queries in their old order (entry `k + 1`
/// is the `k`-th old entry whose query is not `q`), cut to
/// [`SEARCH_HISTORY_LIMIT`] entries: the oldest are the ones dropped.
pub proof fn record_keeps_older_queries_in_order(
    es: Seq<(Seq<char>, Seq<char>, u64)>,
    q: Seq<char>,
    c: Seq<char>,
    t: u64,
)
    ensures
        ({
            let others = es.filter(|e: (Seq<char>, Seq<char>, u64)| e.0 != q);
            let r = spec_recorded(es, q, c, t);
            &&& r.len() == if others.len() + 1 > SEARCH_HISTORY_LIMIT {
                SEARCH_HISTORY_LIMIT as int
            } else {
                others.len() + 1int
            }
            &&& r[0] == (q, c, t)
            &&& forall|k: int| 0 <= k < r.len() - 1 ==> #[trigger] r[k + 1] == others[k]
        }),
{
    lemma_without_query_filter(es, q);
}

/// A query as it is recorded: whitespace runs collapsed to single spaces,
/// leading and trailing whitespace dropped.
pub fn normalized_query(query: &str) -> (r: String)
    ensures
        r@ == collapse_ws(query@),
{
    string_of(&collapse_whitespace(&chars_of(query)))
}

/// The newest-first search log after recording `query` (see
/// [`spec_recorded`]).
pub fn recorded_searches(
    entries: Vec<SearchEntry>,
    query: String,
    context: &str,
    timestamp: u64,
) -> (r: Vec<SearchEntry>)
    ensures
        searches_view(r@) == spec_recorded(
            searches_view(entries@),
            query@,
            context@,
            timestamp,
        ),
{
    let ghost es = searches_view(entries@);
    let ghost q = query@;
    let mut kept: Vec<SearchEntry> = Vec::new();
    let mut i: usize = 0;
    while i < entries.len()
        invariant
            i <= entries@.len(),
            es == searches_view(entries@),
            q == query@,
            searches_view(kept@) == without_query(es.take(i as int), q),
        decreases entries@.len() - i,
    {
        let ghost prev = kept@;
        let ghost x = es[i as int];
        proof {
            assert(es.take(i + 1) =~= es.take(i as int) + seq![x]);
            lemma_without_query_concat(es.take(i as int), seq![x], q);
            assert(seq![x].drop_first() =~= Seq::<(Seq<char>, Seq<char>, u64)>::empty());
            assert(without_query(Seq::<(Seq<char>, Seq<char>, u64)>::empty(), q)
                == Seq::<(Seq<char>, Seq<char>, u64)>::empty());
        }
        if entries[i].query != query {
            let e = copy_search(&entries[i]);
            kept.push(e);
            assert(searches_view(kept@) =~= searches_view(prev).push(x));
            assert(without_query(seq![x], q) =~= seq![x]);
        } else {
            assert(without_query(seq![x], q) =~= Seq::<(Seq<char>, Seq<char>, u64)>::empty());
        }
        i = i + 1;
        assert(searches_view(kept@) =~= without_query(es.take(i as int), q));
    }
    assert(es.take(i as int) =~= es);
    let first = SearchEntry { query, context: context.to_owned(), timestamp };
    let ghost fv = search_view(first);
    let mut out: Vec<SearchEntry> = Vec::new();
    out.push(first);
    let mut k: usize = 0;
    while k < kept.len() && out.len() < SEARCH_HISTORY_LIMIT
        invariant
            k <= kept@.len(),
            out@.len() == k + 1,
            out@.len() <= SEARCH_HISTORY_LIMIT,
            searches_view(out@) =~= (seq![fv] + searches_view(kept@)).take(k + 1),
        decreases kept@.len() - k,
    {
        let e = copy_search(&kept[k]);
        let ghost prev = out@;
        out.push(e);
        assert(searches_view(out@) =~= searches_view(prev).push(search_view(e)));
        k = k + 1;
    }
    let ghost all = seq![fv] + searches_view(kept@);
    assert(fv == (query@, context@, timestamp));
    proof {
        if all.len() <= SEARCH_HISTORY_LIMIT {
            assert(all.take(all.len() as int) =~= all);
        }
    }
    out
}

pub open spec fn distinct_queries(es: Seq<(Seq<char>, Seq<char>, u64)>) -> bool {
    forall|a: int, b: int| 0 <= a < b < es.len() ==> (#[trigger] es[a]).0 != (#[trigger] es[b]).0
}

/// Recording puts the query first with its scope and time, keeps no other
/// entry of that query, never grows the log beyond the cap, and keeps
/// queries distinct when they were.
pub proof fn record_puts_query_first_once(
    es: Seq<(Seq<char>, Seq<char>, u64)>,
    q: Seq<char>,
    c: Seq<char>,
    t: u64,
)
    ensures
        spec_recorded(es, q, c, t).len() >= 1,
        spec_recorded(es, q, c, t)[0] == (q, c, t),
        spec_recorded(es, q, c, t).len() <= SEARCH_HISTORY_LIMIT,
        forall|k: int|
            1 <= k < spec_recorded(es, q, c, t).len() ==> (#[trigger] spec_recorded(
                es,
                q,
                c,
                t,
            )[k]).0 != q,
        distinct_queries(es) ==> distinct_queries(spec_recorded(es, q, c, t)),
{
    lemma_without_query(es, q);
    let w = without_query(es, q);
    let all = seq![(q, c, t)] + w;
    let r = spec_recorded(es, q, c, t);
    assert forall|k: int| 1 <= k < r.len() implies (#[trigger] r[k]).0 != q by {
        assert(r[k] == all[k]);
        assert(all[k] == w[k - 1]);
    }
    if distinct_queries(es) {
        lemma_without_query_distinct(es, q);
        assert forall|a: int, b: int| 0 <= a < b < r.len() implies (#[trigger] r[a]).0
            != (#[trigger] r[b]).0 by {
            assert(r[b] == w[b - 1]);
            if a > 0 {
                assert(r[a] == w[a - 1]);
            }
        }
    }
}

pub proof fn lemma_without_query_distinct(es: Seq<(Seq<char>, Seq<char>, u64)>, q: Seq<char>)
    requires
        distinct_queries(es),
    ensures
        distinct_queries(without_query(es, q)),
    decreases es.len(),
{
    if es.len() > 0 {
        let rest = es.drop_first();
        assert(distinct_queries(rest)) by {
            assert forall|a: int, b: int| 0 <= a < b < rest.len() implies (#[trigger] rest[a]).0
                != (#[trigger] rest[b]).0 by {
                assert(rest[a] == es[a + 1] && rest[b] == es[b + 1]);
            }
        }
        lemma_without_query_distinct(rest, q);
        lemma_without_query(rest, q);
        let w = without_query(es, q);
        let wr = without_query(rest, q);
        if es[0].0 != q {
            assert forall|a: int, b: int| 0 <= a < b < w.len() implies (#[trigger] w[a]).0
                != (#[trigger] w[b]).0 by {
                assert(w[b] == wr[b - 1]);
                if a == 0 {
                    assert(rest.contains(wr[b - 1]));
                    let j = choose|j: int| 0 <= j < rest.len() && rest[j] == wr[b - 1];
                    assert(es[j + 1] == rest[j]);
                } else {
                    assert(w[a] == wr[a - 1]);
                }
            }
        } else {
            assert(w =~= wr);
        }
    }
}

/// A search log entry that survives being written and read back: a
/// non-empty query and a scope that does not end in `\r`.
pub open spec fn storable_search(e: (Seq<char>, Seq<char>, u64)) -> bool {
    e.0.len() > 0 && keeps_end(e.1)
}

pub open spec fn sanitized_searches(es: Seq<(Seq<char>, Seq<char>, u64)>) -> Seq<
    (Seq<char>, Seq<char>, u64),
> {
    Seq::new(es.len(), |i: int| (sanitize(es[i].0), sanitize(es[i].1), es[i].2))
}

pub proof fn lemma_search_lines(es: Seq<(Seq<char>, Seq<char>, u64)>)
    requires
        forall|k: int| 0 <= k < es.len() ==> storable_search(#[trigger] es[k]),
    ensures
        parsed_searches(lines(rendered_searches(es))) == sanitized_searches(es),
    decreases es.len(),
{
    if es.len() == 0 {
        assert(rendered_searches(es) =~= Seq::<char>::empty());
        assert(sanitized_searches(es) =~= Seq::<(Seq<char>, Seq<char>, u64)>::empty());
    } else {
        let e = es[0];
        let rest = es.drop_first();
        assert forall|k: int| 0 <= k < rest.len() implies storable_search(#[trigger] rest[k]) by {
            assert(rest[k] == es[k + 1]);
        }
        lemma_search_lines(rest);
        let ts = decimal_digits(e.2 as nat);
        crate::text::lemma_decimal_digits(e.2 as nat);
        crate::text::lemma_digit_run_all(ts);
        assert(single_field(ts)) by {
            assert forall|k: int| 0 <= k < ts.len() implies #[trigger] ts[k] != '\t' && ts[k]
                != '\n' by {
                assert(crate::text::is_ascii_digit(ts[k]));
            }
        }
        lemma_sanitize_single(e.0);
        lemma_sanitize_single(e.1);
        let body = ts + seq!['\t'] + sanitize(e.0) + seq!['\t'] + sanitize(e.1);
        assert forall|k: int| 0 <= k < body.len() implies #[trigger] body[k] != '\n' by {
            if k < ts.len() {
                assert(body[k] == ts[k]);
            } else if k == ts.len() {
            } else if k < ts.len() + 1 + e.0.len() {
                assert(body[k] == sanitize(e.0)[k - ts.len() - 1]);
            } else if k == ts.len() + 1 + e.0.len() {
            } else {
                assert(body[k] == sanitize(e.1)[k - ts.len() - 2 - e.0.len()]);
            }
        }
        assert(search_line(e) =~= body + seq!['\n']);
        assert(rendered_searches(es) =~= body + seq!['\n'] + rendered_searches(rest));
        lemma_lines_first(body, rendered_searches(rest));
        assert(strip_cr(body) == body) by {
            if sanitize(e.1).len() > 0 {
                assert(body.last() == sanitize(e.1).last());
            }
        }
        lemma_split3_fields(ts, sanitize(e.0), sanitize(e.1));
        crate::text::lemma_parse_decimal_digits(e.2);
        assert(search_from_line(body) == Some((sanitize(e.0), sanitize(e.1), e.2)));
        let ls = lines(rendered_searches(es));
        assert(ls =~= seq![body] + lines(rendered_searches(rest)));
        assert(ls.drop_first() =~= lines(rendered_searches(rest)));
        assert(parsed_searches(ls) =~= seq![(sanitize(e.0), sanitize(e.1), e.2)]
            + sanitized_searches(rest));
        assert(sanitized_searches(es) =~= seq![(sanitize(e.0), sanitize(e.1), e.2)]
            + sanitized_searches(rest));
    }
}

/// Reading back a written search log gives the entries that were written,
/// newest first (tabs and newlines in query and scope made spaces),
/// provided that each query is non-empty and no scope ends in `\r`.
pub proof fn search_history_round_trip(es: Seq<(Seq<char>, Seq<char>, u64)>)
    requires
        forall|k: int| 0 <= k < es.len() ==> storable_search(#[trigger] es[k]),
    ensures
        spec_parse_search_history(spec_render_search_history(es)) == sanitized_searches(es),
{
    let rev = es.reverse();
    assert forall|k: int| 0 <= k < rev.len() implies storable_search(#[trigger] rev[k]) by {
        assert(rev[k] == es[es.len() - 1 - k]);
    }
    lemma_search_lines(rev);
    assert(sanitized_searches(rev).reverse() =~= sanitized_searches(es));
}

/// Recording a query and reading the search log back lists the query
/// first, as recorded, with its scope and time: the query is the collapsed
/// form of what was typed (non-empty), the scope holds no tab or newline
/// and does not end in `\r`, and the earlier entries were storable.
pub proof fn record_then_read_lists_query_first(
    es: Seq<(Seq<char>, Seq<char>, u64)>,
    typed: Seq<char>,
    c: Seq<char>,
    t: u64,
)
    requires
        collapse_ws(typed).len() > 0,
        single_field(c),
        keeps_end(c),
        forall|k: int| 0 <= k < es.len() ==> storable_search(#[trigger] es[k]),
    ensures
        ({
            let q = collapse_ws(typed);
            let back = spec_parse_search_history(
                spec_render_search_history(spec_recorded(es, q, c, t)),
            );
            &&& back.len() == spec_recorded(es, q, c, t).len()
            &&& back[0] == (q, c, t)
        }),
{
    let q = collapse_ws(typed);
    crate::text::lemma_collapse_no_breaks(typed);
    assert(single_field(q));
    let r = spec_recorded(es, q, c, t);
    record_puts_query_first_once(es, q, c, t);
    lemma_without_query(es, q);
    let w = without_query(es, q);
    assert forall|k: int| 0 <= k < r.len() implies storable_search(#[trigger] r[k]) by {
        if k > 0 {
            assert(r[k] == w[k - 1]);
            let j = choose|j: int| 0 <= j < es.len() && es[j] == w[k - 1];
            assert(storable_search(es[j]));
        }
    }
    search_history_round_trip(r);
    lemma_sanitize_single(q);
    lemma_sanitize_single(c);
}


/// Recording a query and reading the search log back gives the recorded
/// log ([`spec_recorded`]) of the old one: the query is the collapsed form
/// of what was typed (non-empty), the scope holds no tab or newline and
/// does not end in `\r`, and the old log was storable with no tab or
/// newline in its queries and scopes.
pub proof fn record_then_read_gives_recorded_log(
    es: Seq<(Seq<char>, Seq<char>, u64)>,
    typed: Seq<char>,
    c: Seq<char>,
    t: u64,
)
    requires
        collapse_ws(typed).len() > 0,
        single_field(c),
        keeps_end(c),
        forall|k: int| 0 <= k < es.len() ==> storable_search(#[trigger] es[k]) && single_field(
            es[k].0,
        ) && single_field(es[k].1),
    ensures
        spec_parse_search_history(
            spec_render_search_history(spec_recorded(es, collapse_ws(typed), c, t)),
        ) == spec_recorded(es, collapse_ws(typed), c, t),
{
    let q = collapse_ws(typed);
    crate::text::lemma_collapse_no_breaks(typed);
    let r = spec_recorded(es, q, c, t);
    record_puts_query_first_once(es, q, c, t);
    lemma_without_query(es, q);
    let w = without_query(es, q);
    assert forall|k: int| 0 <= k < r.len() implies storable_search(#[trigger] r[k])
        && single_field(r[k].0) && single_field(r[k].1) by {
        if k > 0 {
            assert(r[k] == w[k - 1]);
            let j = choose|j: int| 0 <= j < es.len() && es[j] == w[k - 1];
            assert(storable_search(es[j]));
        }
    }
    search_history_round_trip(r);
    assert forall|k: int| 0 <= k < r.len() implies #[trigger] sanitized_searches(r)[k] == r[k] by {
        lemma_sanitize_single(r[k].0);
        lemma_sanitize_single(r[k].1);
    }
    assert(sanitized_searches(r) =~= r);
}

/// The search-log file.
#[derive(Debug)]
pub struct SearchHistory {
    path: PathBuf,
}

impl SearchHistory {
    pub closed spec fn location(self) -> PathBuf {
        self.path
    }

    pub fn new(path: PathBuf) -> (s: Self)
        ensures
            s.location() == path,
    {
        SearchHistory { path }
    }

    pub fn path(&self) -> (p: &PathBuf)
        ensures
            *p == self.location(),
    {
        &self.path
    }

    /// The search log `ani-search-hsts` in the [`state_dir`] for
    /// `override_dir`.
    pub fn platform_default(override_dir: Option<PathBuf>) -> (r: Result<Self>)
        ensures
            override_dir matches Some(d) ==> (r matches Ok(s) && s.location() == joined_path(
                d,
                "ani-search-hsts"@,
            )),
            override_dir is None ==> exists|found: Option<(Option<PathBuf>, PathBuf)>|
                Self::placed(r, #[trigger] spec_platform_dir(found)),
            r is Err ==> override_dir is None && r matches Err(AniError::HistoryStateDirectory),
    {
        let ghost none = override_dir is None;
        let dir = state_dir(override_dir);
        let ghost found = choose|found: Option<(Option<PathBuf>, PathBuf)>|
            dir == spec_platform_dir(found);
        let dir = match dir {
            Ok(d) => d,
            Err(e) => {
                assert(none ==> Self::placed(Err(e), spec_platform_dir(found)));
                return Err(e);
            },
        };
        let path = file_in(&dir, "ani-search-hsts");
        let r = Ok(Self::new(path));
        assert(none ==> Self::placed(r, spec_platform_dir(found)));
        r
    }

    /// The log is the file `ani-search-hsts` in the directory `dir`, or `dir`'s error.
    pub open spec fn placed(r: Result<Self>, dir: Result<PathBuf>) -> bool {
        match dir {
            Ok(d) => r matches Ok(s) && s.location() == joined_path(d, "ani-search-hsts"@),
            Err(e) => r == Err::<Self, AniError>(e),
        }
    }
}

} // verus!
