//! Environment variables and proxy settings kept in files: removing and
//! restoring variables (with a backup), the proxy exports in shell start-up
//! files, the pip proxy setting, and the summary of the proxy in effect.
use vstd::prelude::*;
use crate::host::{home_dir, opt_view, string_views, Platform};
use crate::text::{
    append_chars, chars_eq, chars_of, contains_seq, find_char, has_prefix, has_substring,
    index_of_char, is_ws, newline, join, join_chars, lemma_filter_all, lemma_lines_of_join, lines, nl, slice_chars,
    split_lines, split_nl, starts_with, string_of, strip_cr, trim, trim_end, trim_start,
    trimmed, trimmed_start, views,
};

verus! {

broadcast use vstd::string::group_string_axioms;

// ---------------------------------------------------------------- line predicates

/// `export {var}=`.
pub open spec fn export_prefix(var: Seq<char>) -> Seq<char> {
    "export "@ + var + "="@
}

/// The line exports `var` (leading whitespace aside).
pub open spec fn is_export_of(line: Seq<char>, var: Seq<char>) -> bool {
    starts_with(trim_start(line), export_prefix(var))
}

/// The proxy variables this library manages, upper and lower case.
pub open spec fn proxy_var_names() -> Seq<Seq<char>> {
    seq!["HTTP_PROXY"@, "http_proxy"@, "HTTPS_PROXY"@, "https_proxy"@, "NO_PROXY"@, "no_proxy"@]
}

/// The hosts that bypass the proxy.
pub open spec fn no_proxy_hosts() -> Seq<char> {
    "localhost,127.0.0.1"@
}

/// The line exports one of the proxy variables.
pub open spec fn is_proxy_export(line: Seq<char>) -> bool {
    exists|i: int| 0 <= i < 6 && is_export_of(line, #[trigger] proxy_var_names()[i])
}

/// The line is a pip `proxy` setting.
pub open spec fn is_pip_proxy_line(line: Seq<char>) -> bool {
    starts_with(trim_start(line), "proxy"@)
}

/// The line assigns `name`: after trimming and an optional `export `, the
/// text before the first `=` is `name` (surrounding whitespace aside).
pub open spec fn assigns_var(line: Seq<char>, name: Seq<char>) -> bool {
    let t = trim(line);
    let e = if starts_with(t, "export "@) { t.skip(7) } else { t };
    match find_char(e, '=') {
        Some(k) => trim(e.take(k)) == name,
        None => false,
    }
}

/// Which lines a rewrite of a file keeps.
pub enum LineRule {
    /// Lines that do not export this variable.
    NotExportOf(Seq<char>),
    /// Lines that export none of the proxy variables.
    NoProxyExport,
    /// Lines that are not a pip `proxy` setting.
    NoPipProxy,
    /// Lines that do not assign this variable.
    NoAssignmentOf(Seq<char>),
}

pub open spec fn line_kept(f: LineRule, line: Seq<char>) -> bool {
    match f {
        LineRule::NotExportOf(var) => !is_export_of(line, var),
        LineRule::NoProxyExport => !is_proxy_export(line),
        LineRule::NoPipProxy => !is_pip_proxy_line(line),
        LineRule::NoAssignmentOf(name) => !assigns_var(line, name),
    }
}

/// `line_kept` as a predicate on lines.
pub open spec fn kept_pred(f: LineRule) -> spec_fn(Seq<char>) -> bool {
    |l: Seq<char>| line_kept(f, l)
}

/// The lines of `content` that `f` keeps, joined with newlines.
pub open spec fn kept_lines(content: Seq<char>, f: LineRule) -> Seq<char> {
    join(lines(content).filter(kept_pred(f)), nl())
}

/// The executable form of a `LineRule`.
pub enum LineFilter {
    NotExportOf(Vec<char>),
    NoProxyExport,
    NoPipProxy,
    NoAssignmentOf(Vec<char>),
}

impl View for LineFilter {
    type V = LineRule;

    open spec fn view(&self) -> LineRule {
        match self {
            LineFilter::NotExportOf(v) => LineRule::NotExportOf(v@),
            LineFilter::NoProxyExport => LineRule::NoProxyExport,
            LineFilter::NoPipProxy => LineRule::NoPipProxy,
            LineFilter::NoAssignmentOf(n) => LineRule::NoAssignmentOf(n@),
        }
    }
}

// ---------------------------------------------------------------- lemmas on re-reading

proof fn lemma_trim_start_all_ws(y: Seq<char>)
    requires
        forall|i: int| 0 <= i < y.len() ==> is_ws(#[trigger] y[i]),
    ensures
        trim_start(y) == Seq::<char>::empty(),
    decreases y.len(),
{
    if y.len() > 0 {
        assert forall|i: int| 0 <= i < y.drop_first().len() implies is_ws(#[trigger] y.drop_first()[i]) by {
            assert(y.drop_first()[i] == y[i + 1]);
        }
        lemma_trim_start_all_ws(y.drop_first());
    }
}

proof fn lemma_trim_start_append(y: Seq<char>, z: Seq<char>)
    requires
        exists|i: int| 0 <= i < y.len() && !is_ws(#[trigger] y[i]),
    ensures
        trim_start(y + z) == trim_start(y) + z,
    decreases y.len(),
{
    assert((y + z)[0] == y[0]);
    if is_ws(y[0]) {
        let w = choose|i: int| 0 <= i < y.len() && !is_ws(#[trigger] y[i]);
        assert(w > 0);
        assert(y.drop_first()[w - 1] == y[w]);
        lemma_trim_start_append(y.drop_first(), z);
        assert((y + z).drop_first() =~= y.drop_first() + z);
    }
}

proof fn lemma_trim_end_push_ws(w: Seq<char>, c: char)
    requires
        is_ws(c),
    ensures
        trim_end(w.push(c)) == trim_end(w),
{
    assert(w.push(c).drop_last() =~= w);
}

/// Trimming ignores one trailing whitespace character.
proof fn lemma_trim_push_ws(y: Seq<char>, c: char)
    requires
        is_ws(c),
    ensures
        trim(y.push(c)) == trim(y),
{
    if exists|i: int| 0 <= i < y.len() && !is_ws(#[trigger] y[i]) {
        lemma_trim_start_append(y, seq![c]);
        assert(y.push(c) =~= y + seq![c]);
        assert(trim_start(y) + seq![c] =~= trim_start(y).push(c));
        lemma_trim_end_push_ws(trim_start(y), c);
    } else {
        lemma_trim_start_all_ws(y);
        assert forall|i: int| 0 <= i < y.push(c).len() implies is_ws(#[trigger] y.push(c)[i]) by {
            if i < y.len() {
                assert(y.push(c)[i] == y[i]);
            }
        }
        lemma_trim_start_all_ws(y.push(c));
    }
}

/// A line that does not start with `p` (leading whitespace aside) still does
/// not once a trailing carriage return is dropped.
proof fn lemma_prefix_strip_cr(x: Seq<char>, p: Seq<char>)
    requires
        !starts_with(trim_start(x), p),
    ensures
        !starts_with(trim_start(strip_cr(x)), p),
{
    if x.len() > 0 && x.last() == '\r' {
        let y = x.drop_last();
        assert(x =~= y + seq!['\r']);
        if exists|i: int| 0 <= i < y.len() && !is_ws(#[trigger] y[i]) {
            lemma_trim_start_append(y, seq!['\r']);
            if starts_with(trim_start(y), p) {
                assert((trim_start(y) + seq!['\r']).take(p.len() as int) =~= trim_start(y).take(p.len() as int));
            }
        } else {
            lemma_trim_start_all_ws(y);
            if p.len() == 0 {
                assert(trim_start(x).take(0) =~= p);
            }
        }
    }
}

proof fn lemma_kept_strip_cr(f: LineRule, x: Seq<char>)
    requires
        line_kept(f, x),
    ensures
        line_kept(f, strip_cr(x)),
{
    match f {
        LineRule::NotExportOf(var) => {
            lemma_prefix_strip_cr(x, export_prefix(var));
        },
        LineRule::NoProxyExport => {
            assert forall|i: int| 0 <= i < 6 implies !is_export_of(strip_cr(x), #[trigger] proxy_var_names()[i]) by {
                assert(!is_export_of(x, proxy_var_names()[i]));
                lemma_prefix_strip_cr(x, export_prefix(proxy_var_names()[i]));
            }
        },
        LineRule::NoPipProxy => {
            lemma_prefix_strip_cr(x, "proxy"@);
        },
        LineRule::NoAssignmentOf(name) => {
            if x.len() > 0 && x.last() == '\r' {
                assert(x =~= x.drop_last().push('\r'));
                lemma_trim_push_ws(x.drop_last(), '\r');
            }
        },
    }
}

proof fn lemma_split_nl_no_newline(s: Seq<char>)
    ensures
        forall|j: int| 0 <= j < split_nl(s).len() ==> !(#[trigger] split_nl(s)[j]).contains('\n'),
    decreases s.len(),
{
    crate::text::lemma_split_nl_nonempty(s);
    if s.len() > 0 {
        let p = split_nl(s.drop_last());
        lemma_split_nl_no_newline(s.drop_last());
        crate::text::lemma_split_nl_nonempty(s.drop_last());
        if s.last() != '\n' {
            assert forall|j: int| 0 <= j < split_nl(s).len() implies !(#[trigger] split_nl(s)[j]).contains('\n') by {
                if j == p.len() - 1 {
                    let l = p.last().push(s.last());
                    assert(split_nl(s)[j] == l);
                    if l.contains('\n') {
                        let k = choose|k: int| 0 <= k < l.len() && l[k] == '\n';
                        if k < l.len() - 1 {
                            assert(p.last()[k] == '\n');
                            assert(p[p.len() - 1].contains('\n'));
                        }
                    }
                }
            }
        } else {
            assert forall|j: int| 0 <= j < split_nl(s).len() implies !(#[trigger] split_nl(s)[j]).contains('\n') by {
                if j < p.len() {
                    assert(split_nl(s)[j] == p[j]);
                }
            }
        }
    }
}

proof fn lemma_lines_no_newline(s: Seq<char>)
    ensures
        forall|j: int| 0 <= j < lines(s).len() ==> !(#[trigger] lines(s)[j]).contains('\n'),
{
    if s.len() > 0 {
        lemma_split_nl_no_newline(s);
        crate::text::lemma_split_nl_nonempty(s);
        let p = split_nl(s);
        assert forall|j: int| 0 <= j < lines(s).len() implies !(#[trigger] lines(s)[j]).contains('\n') by {
            if j < p.len() - 1 {
                assert(lines(s)[j] == strip_cr(p[j]));
                if strip_cr(p[j]).contains('\n') {
                    let k = choose|k: int| 0 <= k < strip_cr(p[j]).len() && strip_cr(p[j])[k] == '\n';
                    assert(p[j][k] == '\n');
                }
            } else {
                assert(lines(s)[j] == p[p.len() - 1]);
            }
        }
    }
}

/// Reading back a file rewritten through a line filter finds only lines the
/// filter keeps.
pub proof fn lemma_kept_lines_reread(content: Seq<char>, f: LineRule)
    ensures
        forall|j: int| 0 <= j < lines(kept_lines(content, f)).len() ==>
            line_kept(f, #[trigger] lines(kept_lines(content, f))[j]),
{
    let pred = kept_pred(f);
    let ls = lines(content);
    let parts = ls.filter(pred);
    broadcast use vstd::seq_lib::group_filter_ensures;
    lemma_lines_no_newline(content);
    assert forall|i: int| 0 <= i < parts.len() implies !(#[trigger] parts[i]).contains('\n') && line_kept(f, parts[i]) by {
        assert(pred(parts[i]));
        assert(parts.contains(parts[i]));
        ls.lemma_filter_contains_rev(pred, parts[i]);
        let k = choose|k: int| 0 <= k < ls.len() && ls[k] == parts[i];
        assert(!ls[k].contains('\n'));
    }
    lemma_lines_of_join(parts);
    let out = lines(join(parts, nl()));
    assert forall|j: int| 0 <= j < out.len() implies line_kept(f, #[trigger] out[j]) by {
        let i = choose|i: int| 0 <= i < parts.len() && (out[j] == parts[i] || out[j] == strip_cr(parts[i]));
        lemma_kept_strip_cr(f, parts[i]);
    }
}

// ---------------------------------------------------------------- executable line rules

/// The proxy variable names.
fn proxy_var_names_exec() -> (r: Vec<Vec<char>>)
    ensures
        views(r@) == proxy_var_names(),
{
    let mut r: Vec<Vec<char>> = Vec::new();
    r.push(chars_of("HTTP_PROXY"));
    r.push(chars_of("http_proxy"));
    r.push(chars_of("HTTPS_PROXY"));
    r.push(chars_of("https_proxy"));
    r.push(chars_of("NO_PROXY"));
    r.push(chars_of("no_proxy"));
    assert(views(r@) =~= proxy_var_names());
    r
}

/// `export {var}=`.
fn export_prefix_exec(var: &Vec<char>) -> (r: Vec<char>)
    ensures
        r@ == export_prefix(var@),
{
    let mut r = chars_of("export ");
    append_chars(&mut r, var);
    append_chars(&mut r, &chars_of("="));
    r
}

fn is_export_of_exec(line: &Vec<char>, var: &Vec<char>) -> (r: bool)
    ensures
        r == is_export_of(line@, var@),
{
    has_prefix(&trimmed_start(line), &export_prefix_exec(var))
}

fn assigns_var_exec(line: &Vec<char>, name: &Vec<char>) -> (r: bool)
    ensures
        r == assigns_var(line@, name@),
{
    proof { reveal_strlit("export "); }
    let t = trimmed(line);
    let e = if has_prefix(&t, &chars_of("export ")) { slice_chars(&t, 7, t.len()) } else { t };
    assert(e@ == (if starts_with(t@, "export "@) { t@.skip(7) } else { t@ }));
    match index_of_char(&e, '=') {
        Some(k) => {
            let before = trimmed(&slice_chars(&e, 0, k));
            assert(e@.take(k as int) =~= e@.subrange(0, k as int));
            chars_eq(&before, name)
        },
        None => false,
    }
}

/// Whether `f` keeps `line`.
fn line_kept_exec(f: &LineFilter, line: &Vec<char>) -> (r: bool)
    ensures
        r == line_kept(f@, line@),
{
    match f {
        LineFilter::NotExportOf(var) => !is_export_of_exec(line, var),
        LineFilter::NoProxyExport => {
            let names = proxy_var_names_exec();
            assert(names@.len() == 6) by {
                assert(views(names@).len() == 6);
            }
            for i in 0..names.len()
                invariant
                    f@ == LineRule::NoProxyExport,
                    names@.len() == 6,
                    views(names@) == proxy_var_names(),
                    forall|k: int| 0 <= k < i ==> !is_export_of(line@, #[trigger] proxy_var_names()[k]),
            {
                assert(views(names@)[i as int] == names@[i as int]@);
                if is_export_of_exec(line, &names[i]) {
                    assert(is_export_of(line@, proxy_var_names()[i as int]));
                    assert(is_proxy_export(line@));
                    return false;
                }
            }
            true
        },
        LineFilter::NoPipProxy => !has_prefix(&trimmed_start(line), &chars_of("proxy")),
        LineFilter::NoAssignmentOf(name) => !assigns_var_exec(line, name),
    }
}

/// The lines of `content` that `f` keeps, joined with newlines.
fn filter_lines(content: &Vec<char>, f: &LineFilter) -> (r: Vec<char>)
    ensures
        r@ == kept_lines(content@, f@),
{
    let ls = split_lines(content);
    let ghost pred = kept_pred(f@);
    let mut kept: Vec<Vec<char>> = Vec::new();
    for i in 0..ls.len()
        invariant
            views(ls@) == lines(content@),
            pred == kept_pred(f@),
            views(kept@) == views(ls@).take(i as int).filter(pred),
    {
        let ghost before = views(kept@);
        let keep = line_kept_exec(f, &ls[i]);
        assert(pred(ls@[i as int]@) == keep);
        assert(views(ls@).take(i + 1) =~= views(ls@).take(i as int).push(ls@[i as int]@));
        proof { views(ls@).take(i as int).lemma_filter_push(ls@[i as int]@, pred); }
        if keep {
            let mut copy = Vec::new();
            append_chars(&mut copy, &ls[i]);
            assert(copy@ =~= ls@[i as int]@);
            kept.push(copy);
            assert(views(kept@) =~= before.push(ls@[i as int]@));
        } else {
            assert(views(kept@) =~= before);
        }
    }
    assert(views(ls@).take(ls@.len() as int) =~= views(ls@));
    join_chars(&kept, &newline())
}

// ---------------------------------------------------------------- file contents

/// `content` without the lines that assign `var_name`, as a variable is
/// removed from a shell start-up file.
pub fn remove_var_assignments(content: &str, var_name: &str) -> (r: String)
    ensures
        r@ == kept_lines(content@, LineRule::NoAssignmentOf(var_name@)),
        forall|j: int| 0 <= j < lines(r@).len() ==> !assigns_var(#[trigger] lines(r@)[j], var_name@),
{
    let f = LineFilter::NoAssignmentOf(chars_of(var_name));
    let r = filter_lines(&chars_of(content), &f);
    proof { lemma_kept_lines_reread(content@, f@); }
    string_of(&r)
}

/// `content` with `export {var_name}={var_value}` appended on a new line, as a
/// variable is restored into a shell start-up file.
pub fn restored_file_content(content: &str, var_name: &str, var_value: &str) -> (r: String)
    ensures
        r@ == content@ + nl() + export_prefix(var_name@) + var_value@,
{
    let mut r = chars_of(content);
    append_chars(&mut r, &newline());
    append_chars(&mut r, &export_prefix_exec(&chars_of(var_name)));
    append_chars(&mut r, &chars_of(var_value));
    string_of(&r)
}

/// `content` without its lines exporting `var`, then `export {var}={value}`
/// on a line of its own at the end.
pub open spec fn with_export(content: Seq<char>, var: Seq<char>, value: Seq<char>) -> Seq<char> {
    kept_lines(content, LineRule::NotExportOf(var)) + nl() + export_prefix(var) + value
}

/// The variables and values a proxy setting assigns: the four proxy
/// variables the URL, the two bypass variables the local hosts.
pub open spec fn proxy_assignments(proxy_url: Seq<char>) -> Seq<(Seq<char>, Seq<char>)> {
    seq![
        (proxy_var_names()[0], proxy_url),
        (proxy_var_names()[1], proxy_url),
        (proxy_var_names()[2], proxy_url),
        (proxy_var_names()[3], proxy_url),
        (proxy_var_names()[4], no_proxy_hosts()),
        (proxy_var_names()[5], no_proxy_hosts()),
    ]
}

/// `with_export` for each assignment in turn.
pub open spec fn apply_exports(content: Seq<char>, assigns: Seq<(Seq<char>, Seq<char>)>) -> Seq<char>
    decreases assigns.len(),
{
    if assigns.len() == 0 {
        content
    } else {
        with_export(apply_exports(content, assigns.drop_last()), assigns.last().0, assigns.last().1)
    }
}

/// The views of a list of string pairs.
pub open spec fn pair_views(v: Seq<(String, String)>) -> Seq<(Seq<char>, Seq<char>)> {
    v.map_values(|p: (String, String)| (p.0@, p.1@))
}

/// The variables and values that setting `proxy_url` as the proxy assigns.
pub fn proxy_env_assignments(proxy_url: &str) -> (r: Vec<(String, String)>)
    ensures
        pair_views(r@) == proxy_assignments(proxy_url@),
{
    let names = proxy_var_names_exec();
    let mut r: Vec<(String, String)> = Vec::new();
    assert(names@.len() == 6) by {
        assert(views(names@).len() == 6);
    }
    for i in 0..6
        invariant
            names@.len() == 6,
            views(names@) == proxy_var_names(),
            pair_views(r@) == proxy_assignments(proxy_url@).take(i as int),
    {
        let value = if i < 4 { proxy_url.to_string() } else { "localhost,127.0.0.1".to_string() };
        let ghost before = pair_views(r@);
        assert(views(names@)[i as int] == names@[i as int]@);
        r.push((string_of(&names[i]), value));
        assert(pair_views(r@) =~= before.push((names@[i as int]@, value@)));
        assert(proxy_assignments(proxy_url@).take(i + 1) =~= proxy_assignments(proxy_url@).take(i as int).push(
            proxy_assignments(proxy_url@)[i as int],
        ));
    }
    assert(proxy_assignments(proxy_url@).take(6) =~= proxy_assignments(proxy_url@));
    r
}

/// A shell start-up file set to use `proxy_url`: each proxy variable's old
/// exports removed and a fresh export appended, the four proxy variables
/// taking the URL and `NO_PROXY`/`no_proxy` the local hosts.
pub fn shell_rc_with_proxy(content: &str, proxy_url: &str) -> (r: String)
    ensures
        r@ == apply_exports(content@, proxy_assignments(proxy_url@)),
{
    let assigns = proxy_env_assignments(proxy_url);
    let mut c = chars_of(content);
    for i in 0..assigns.len()
        invariant
            pair_views(assigns@) == proxy_assignments(proxy_url@),
            c@ == apply_exports(content@, proxy_assignments(proxy_url@).take(i as int)),
    {
        let var = chars_of(assigns[i].0.as_str());
        let value = chars_of(assigns[i].1.as_str());
        let prefix = export_prefix_exec(&var);
        let mut next = filter_lines(&c, &LineFilter::NotExportOf(var));
        append_chars(&mut next, &newline());
        append_chars(&mut next, &prefix);
        append_chars(&mut next, &value);
        let ghost t = proxy_assignments(proxy_url@).take(i + 1);
        assert(t.drop_last() =~= proxy_assignments(proxy_url@).take(i as int));
        assert(t.last() == pair_views(assigns@)[i as int]);
        c = next;
    }
    assert(proxy_assignments(proxy_url@).take(assigns@.len() as int) =~= proxy_assignments(proxy_url@));
    string_of(&c)
}

/// A shell start-up file without any export of the proxy variables.
pub fn shell_rc_without_proxy(content: &str) -> (r: String)
    ensures
        r@ == kept_lines(content@, LineRule::NoProxyExport),
        forall|j: int| 0 <= j < lines(r@).len() ==> !is_proxy_export(#[trigger] lines(r@)[j]),
{
    let r = filter_lines(&chars_of(content), &LineFilter::NoProxyExport);
    proof { lemma_kept_lines_reread(content@, LineRule::NoProxyExport); }
    string_of(&r)
}

/// The pip configuration that routes pip through `proxy_url`.
pub fn pip_proxy_config(proxy_url: &str) -> (r: String)
    ensures
        r@ == "[global]\nproxy = "@ + proxy_url@ + nl(),
{
    let mut r = chars_of("[global]\nproxy = ");
    append_chars(&mut r, &chars_of(proxy_url));
    append_chars(&mut r, &newline());
    string_of(&r)
}

/// A pip configuration without its `proxy` lines.
pub fn pip_conf_without_proxy(content: &str) -> (r: String)
    ensures
        r@ == kept_lines(content@, LineRule::NoPipProxy),
        forall|j: int| 0 <= j < lines(r@).len() ==> !is_pip_proxy_line(#[trigger] lines(r@)[j]),
{
    let r = filter_lines(&chars_of(content), &LineFilter::NoPipProxy);
    proof { lemma_kept_lines_reread(content@, LineRule::NoPipProxy); }
    string_of(&r)
}

/// Clearing the proxy from a shell start-up file that was set to use one
/// leaves no proxy export in it.
pub proof fn lemma_clear_after_set(content: Seq<char>, proxy_url: Seq<char>, cleared: Seq<char>)
    requires
        cleared == kept_lines(apply_exports(content, proxy_assignments(proxy_url)), LineRule::NoProxyExport),
    ensures
        forall|j: int| 0 <= j < lines(cleared).len() ==> !is_proxy_export(#[trigger] lines(cleared)[j]),
{
    lemma_kept_lines_reread(apply_exports(content, proxy_assignments(proxy_url)), LineRule::NoProxyExport);
}

// ---------------------------------------------------------------- variables, backups

/// An environment variable set somewhere that conflicts with the application.
#[derive(Debug)]
pub struct EnvConflict {
    pub var_name: String,
    pub var_value: String,
    /// `"system"` (the registry, or the process environment) or `"file"`.
    pub source_type: String,
    /// Where it is set: a registry path, or `file:line` for a file.
    pub source_path: String,
}

/// The record of a backup taken before variables are deleted.
#[derive(Debug)]
pub struct BackupInfo {
    pub backup_path: String,
    pub timestamp: String,
    pub conflicts: Vec<EnvConflict>,
}

/// Where a backup goes: its directory (as path components), its file name and
/// the timestamp it carries.
#[derive(Debug)]
pub struct BackupPlan {
    pub dir: Vec<String>,
    pub file_name: String,
    pub timestamp: String,
}

/// The message when the home directory is unknown.
pub open spec fn no_home_message() -> Seq<char> {
    "无法获取用户主目录"@
}

/// The backup directory below a home directory: `{home}/.cc-switch/backups`.
pub open spec fn backup_dir_components(home: Seq<char>) -> Seq<Seq<char>> {
    seq![home, ".cc-switch"@, "backups"@]
}

/// The backup directory below the given home directory.
pub fn backup_dir_under(home: Option<String>) -> (r: Result<Vec<String>, String>)
    ensures
        home is None ==> (r matches Err(e) && e@ == no_home_message()),
        home matches Some(h) ==> (r matches Ok(v) && string_views(v@) == backup_dir_components(h@)),
{
    match home {
        Some(h) => {
            let mut v: Vec<String> = Vec::new();
            let ghost hv = h@;
            v.push(h);
            v.push(".cc-switch".to_string());
            v.push("backups".to_string());
            assert(string_views(v@) =~= backup_dir_components(hv));
            Ok(v)
        },
        None => Err("无法获取用户主目录".to_string()),
    }
}

/// The backup directory of this user.
pub fn get_backup_dir() -> (r: Result<Vec<String>, String>)
    ensures
        r matches Err(e) ==> e@ == no_home_message(),
        r matches Ok(v) ==> exists|h: Seq<char>| string_views(v@) == #[trigger] backup_dir_components(h),
{
    backup_dir_under(home_dir())
}

/// The message when the system clock cannot be read as a time.
pub open spec fn no_time_message() -> Seq<char> {
    "无法获取当前时间"@
}

pub open spec fn is_digit(c: char) -> bool {
    '0' as u32 <= c as u32 && c as u32 <= '9' as u32
}

pub open spec fn all_digits(s: Seq<char>) -> bool {
    forall|i: int| 0 <= i < s.len() ==> is_digit(#[trigger] s[i])
}

/// chrono's `%Y`: four digits for the years 0 to 9999, else a sign and at least four digits.
pub open spec fn is_year_text(y: Seq<char>) -> bool {
    ||| y.len() == 4 && all_digits(y)
    ||| y.len() >= 5 && (y[0] == '+' || y[0] == '-') && all_digits(y.drop_first())
}

/// The shape of `%Y%m%d_%H%M%S`: the year, two-digit month and day, `_`,
/// two-digit hour, minute and second.
pub open spec fn is_backup_timestamp(t: Seq<char>) -> bool {
    &&& t.len() >= 15
    &&& is_year_text(t.take(t.len() - 11))
    &&& all_digits(t.subrange(t.len() - 11, t.len() - 7))
    &&& t[t.len() - 7] == '_'
    &&& all_digits(t.skip(t.len() - 6))
}

/// The format of backup timestamps.
pub open spec fn backup_time_format() -> Seq<char> {
    "%Y%m%d_%H%M%S"@
}

/// A reading of the system clock.
#[verifier::external_type_specification]
#[verifier::external_body]
pub struct ExSystemTime(std::time::SystemTime);

/// The system clock now.
/// Trusted: `std::time::SystemTime::now`. It reads the clock, so nothing is
/// promised of the value.
#[verifier::external_body]
fn clock_now() -> (r: std::time::SystemTime) {
    std::time::SystemTime::now()
}

/// How long after 1970-01-01 00:00 UTC the clock reading `t` lies; `None`
/// when it lies before.
/// Trusted: `SystemTime::duration_since` with `UNIX_EPOCH`, its error dropped.
/// A clock reading is opaque here, so nothing is promised of the value.
#[verifier::external_body]
fn since_unix_epoch(t: &std::time::SystemTime) -> (r: Option<std::time::Duration>) {
    match t.duration_since(std::time::UNIX_EPOCH) {
        Ok(d) => Some(d),
        Err(_) => None,
    }
}

/// The whole seconds of a span of time.
/// Trusted: `Duration::as_secs`. A `Duration` is opaque here, so nothing is
/// promised of the value.
#[verifier::external_body]
fn whole_seconds(d: &std::time::Duration) -> (r: u64) {
    d.as_secs()
}

/// The whole seconds since 1970-01-01 00:00 UTC on the system clock; `None`
/// when the clock reads before 1970 or beyond what an `i64` holds.
fn unix_seconds_now() -> (r: Option<i64>)
    ensures
        r matches Some(s) ==> s >= 0,
{
    let now = clock_now();
    match since_unix_epoch(&now) {
        Some(d) => whole_seconds_as_i64(whole_seconds(&d)),
        None => None,
    }
}

/// A count of whole seconds as an `i64`, when it fits.
pub fn whole_seconds_as_i64(secs: u64) -> (r: Option<i64>)
    ensures
        r == (if secs <= i64::MAX { Some(secs as i64) } else { None::<i64> }),
{
    if secs <= 9223372036854775807u64 {
        Some(secs as i64)
    } else {
        None
    }
}

/// The first second chrono represents: -262143-01-01 00:00:00 UTC.
pub open spec fn earliest_utc_secs() -> int {
    -8334601228800
}

/// The last second chrono represents: +262142-12-31 23:59:59 UTC.
pub open spec fn latest_utc_secs() -> int {
    8210266876799
}

/// The text chrono writes for the UTC time `secs` seconds after
/// 1970-01-01 00:00 in the backup time format.
pub uninterp spec fn utc_backup_text(secs: int) -> Seq<char>;

/// The UTC time `secs` seconds after 1970-01-01 00:00, written with the
/// backup time format.
/// Trusted: `chrono::DateTime::from_timestamp(secs, 0)` formatted with
/// `DateTime::format`. chrono takes in the years -262143 to 262142, from
/// `earliest_utc_secs()` to `latest_utc_secs()`, and gives `None` outside
/// them; by chrono's strftime table the text has the shape of
/// `is_backup_timestamp`, with a four-digit year for the years 1970 to 9999.
#[verifier::external_body]
fn format_utc(secs: i64, fmt: &str) -> (r: Option<String>)
    requires
        fmt@ == backup_time_format(),
    ensures
        r matches Some(t) ==> t@ == utc_backup_text(secs as int),
        r matches Some(t) ==> is_backup_timestamp(t@),
        r is Some <==> earliest_utc_secs() <= secs <= latest_utc_secs(),
        r matches Some(t) ==> (0 <= secs < 253402300800 ==> t@.len() == 15),
{
    match chrono::DateTime::from_timestamp(secs, 0) {
        Some(d) => Some(d.format(fmt).to_string()),
        None => None,
    }
}

/// The backup timestamp of the UTC time `secs` seconds after 1970-01-01 00:00.
pub fn backup_timestamp_at(secs: i64) -> (r: Option<String>)
    ensures
        r matches Some(t) ==> t@ == utc_backup_text(secs as int) && is_backup_timestamp(t@),
        r is Some <==> earliest_utc_secs() <= secs <= latest_utc_secs(),
        0 <= secs < 253402300800 ==> (r matches Some(t) && t@.len() == 15),
{
    format_utc(secs, "%Y%m%d_%H%M%S")
}

/// The current UTC time in the backup time format, when the clock can be read.
pub fn backup_timestamp() -> (r: Option<String>)
    ensures
        r matches Some(t) ==> is_backup_timestamp(t@)
            && exists|secs: int| secs >= 0 && t@ == #[trigger] utc_backup_text(secs),
{
    let secs = match unix_seconds_now() {
        Some(s) => s,
        None => return None,
    };
    backup_timestamp_at(secs)
}

/// The backup file name for a timestamp: `env-backup-{timestamp}.json`.
pub fn backup_file_name(timestamp: &str) -> (r: String)
    ensures
        r@ == "env-backup-"@ + timestamp@ + ".json"@,
{
    let mut v = chars_of("env-backup-");
    append_chars(&mut v, &chars_of(timestamp));
    append_chars(&mut v, &chars_of(".json"));
    string_of(&v)
}

/// Where a backup goes, given the home directory and the clock's whole
/// seconds since 1970-01-01 00:00 UTC (`None` for either when it could not be
/// read): the backup directory below home, and a file named after the time.
pub fn plan_backup_at(home: Option<String>, secs: Option<i64>) -> (r: Result<BackupPlan, String>)
    ensures
        home is None ==> (r matches Err(e) && e@ == no_home_message()),
        home is Some && secs is None ==> (r matches Err(e) && e@ == no_time_message()),
        home matches Some(h) ==> (secs matches Some(s) ==> (earliest_utc_secs() <= s <= latest_utc_secs() ==> (r matches Ok(p)
            && string_views(p.dir@) == backup_dir_components(h@)))),
        secs matches Some(s) ==> (r is Ok <==> home is Some && earliest_utc_secs() <= s <= latest_utc_secs()),
        r matches Err(e) ==> e@ == no_home_message() || e@ == no_time_message(),
        r matches Ok(p) ==> (home matches Some(h) && secs matches Some(s)
            && string_views(p.dir@) == backup_dir_components(h@)
            && p.timestamp@ == utc_backup_text(s as int)
            && is_backup_timestamp(p.timestamp@)
            && p.file_name@ == "env-backup-"@ + p.timestamp@ + ".json"@),
{
    let dir = match backup_dir_under(home) {
        Ok(d) => d,
        Err(e) => return Err(e),
    };
    let s = match secs {
        Some(s) => s,
        None => return Err("无法获取当前时间".to_string()),
    };
    let timestamp = match backup_timestamp_at(s) {
        Some(t) => t,
        None => return Err("无法获取当前时间".to_string()),
    };
    let file_name = backup_file_name(timestamp.as_str());
    Ok(BackupPlan { dir, file_name, timestamp })
}

/// Where a backup taken now goes.
pub fn plan_backup() -> (r: Result<BackupPlan, String>)
    ensures
        r matches Err(e) ==> e@ == no_home_message() || e@ == no_time_message(),
        r matches Ok(p) ==> (exists|h: Seq<char>| string_views(p.dir@) == #[trigger] backup_dir_components(h))
            && (exists|secs: int| secs >= 0 && p.timestamp@ == #[trigger] utc_backup_text(secs))
            && is_backup_timestamp(p.timestamp@)
            && p.file_name@ == "env-backup-"@ + p.timestamp@ + ".json"@,
{
    let home = home_dir();
    let secs = unix_seconds_now();
    plan_backup_at(home, secs)
}

/// The proxy set in the environment: `HTTP_PROXY`, else `http_proxy`.
pub fn env_proxy_value(upper: Option<String>, lower: Option<String>) -> (r: Option<String>)
    ensures
        opt_view(r) == (if upper is Some { opt_view(upper) } else { opt_view(lower) }),
{
    match upper {
        Some(u) => Some(u),
        None => lower,
    }
}

/// The next step of deleting variables after their backup was written.
#[derive(Debug)]
pub enum DeletionStep {
    /// Delete the variable at this index.
    Delete(usize),
    /// A deletion failed; report this message.
    Failed(String),
    /// All variables are deleted.
    Done,
}

/// The next step of deleting `count` variables, given the results of the
/// deletions so far: the first failure ends it with a message naming the
/// backup, else the next variable is deleted until none is left.
pub fn next_deletion_step(count: usize, results: &Vec<Result<(), String>>, backup_path: &str) -> (r: DeletionStep)
    ensures
        results.len() > 0 && results@.last() is Err ==> (r matches DeletionStep::Failed(m)
            && m@ == "删除环境变量失败: "@ + results@.last()->Err_0@ + ". 备份已保存到: "@ + backup_path@),
        !(results.len() > 0 && results@.last() is Err) && results.len() < count ==> r == DeletionStep::Delete(
            results.len(),
        ),
        !(results.len() > 0 && results@.last() is Err) && results.len() >= count ==> r is Done,
{
    let n = results.len();
    if n > 0 {
        if let Err(e) = &results[n - 1] {
            return DeletionStep::Failed(delete_failure_message(e.as_str(), backup_path));
        }
    }
    if n < count {
        DeletionStep::Delete(n)
    } else {
        DeletionStep::Done
    }
}

/// The message when deleting a variable failed after the backup was written.
pub fn delete_failure_message(error: &str, backup_path: &str) -> (r: String)
    ensures
        r@ == "删除环境变量失败: "@ + error@ + ". 备份已保存到: "@ + backup_path@,
{
    let mut v = chars_of("删除环境变量失败: ");
    append_chars(&mut v, &chars_of(error));
    append_chars(&mut v, &chars_of(". 备份已保存到: "));
    append_chars(&mut v, &chars_of(backup_path));
    string_of(&v)
}

/// What deleting or restoring one variable comes down to.
#[derive(Debug)]
pub enum EnvEdit {
    /// The value under `HKEY_CURRENT_USER\Environment`.
    UserRegistry,
    /// The value under `HKEY_LOCAL_MACHINE\...\Session Manager\Environment`.
    MachineRegistry,
    /// Nothing to do.
    Nothing,
    /// A line of this file.
    File(String),
}

/// `EnvEdit` with the file name as characters.
pub enum EnvEditView {
    UserRegistry,
    MachineRegistry,
    Nothing,
    File(Seq<char>),
}

impl View for EnvEdit {
    type V = EnvEditView;

    open spec fn view(&self) -> EnvEditView {
        match self {
            EnvEdit::UserRegistry => EnvEditView::UserRegistry,
            EnvEdit::MachineRegistry => EnvEditView::MachineRegistry,
            EnvEdit::Nothing => EnvEditView::Nothing,
            EnvEdit::File(f) => EnvEditView::File(f@),
        }
    }
}

/// The view of a planned edit or its error message.
pub open spec fn edit_view(r: Result<EnvEdit, String>) -> Result<EnvEditView, Seq<char>> {
    match r {
        Ok(e) => Ok(e@),
        Err(m) => Err(m@),
    }
}

/// The registry hive a `system` source lives in, by its path.
pub open spec fn registry_edit(source_path: Seq<char>) -> EnvEditView {
    if contains_seq(source_path, "HKEY_CURRENT_USER"@) {
        EnvEditView::UserRegistry
    } else if contains_seq(source_path, "HKEY_LOCAL_MACHINE"@) {
        EnvEditView::MachineRegistry
    } else {
        EnvEditView::Nothing
    }
}

/// The file part of `file:line`: the text before the first `:`.
pub open spec fn file_part(source_path: Seq<char>) -> Seq<char> {
    match find_char(source_path, ':') {
        Some(k) => source_path.take(k),
        None => source_path,
    }
}

/// What deleting a conflicting variable comes down to, or why it cannot be done.
pub open spec fn deletion_plan(
    platform: Platform,
    source_type: Seq<char>,
    source_path: Seq<char>,
) -> Result<EnvEditView, Seq<char>> {
    if platform == Platform::Windows {
        if source_type == "system"@ {
            Ok(registry_edit(source_path))
        } else if source_type == "file"@ {
            Err("Windows 系统不应该有文件类型的环境变量"@)
        } else {
            Err("未知的环境变量来源类型: "@ + source_type)
        }
    } else {
        if source_type == "file"@ {
            if find_char(source_path, ':') is None {
                Err("无效的文件路径格式"@)
            } else {
                Ok(EnvEditView::File(file_part(source_path)))
            }
        } else if source_type == "system"@ {
            Ok(EnvEditView::Nothing)
        } else {
            Err("未知的环境变量来源类型: "@ + source_type)
        }
    }
}

/// What restoring a backed-up variable comes down to, or why it cannot be done.
pub open spec fn restore_plan(
    platform: Platform,
    source_type: Seq<char>,
    source_path: Seq<char>,
) -> Result<EnvEditView, Seq<char>> {
    if platform == Platform::Windows && source_type == "system"@ {
        Ok(registry_edit(source_path))
    } else if platform != Platform::Windows && source_type == "file"@ {
        Ok(EnvEditView::File(file_part(source_path)))
    } else {
        Err("无法恢复类型为 "@ + source_type + " 的环境变量"@)
    }
}

fn registry_edit_exec(source_path: &Vec<char>) -> (r: EnvEdit)
    ensures
        r@ == registry_edit(source_path@),
{
    if has_substring(source_path, &chars_of("HKEY_CURRENT_USER")) {
        EnvEdit::UserRegistry
    } else if has_substring(source_path, &chars_of("HKEY_LOCAL_MACHINE")) {
        EnvEdit::MachineRegistry
    } else {
        EnvEdit::Nothing
    }
}

fn file_part_exec(source_path: &Vec<char>) -> (r: String)
    ensures
        r@ == file_part(source_path@),
{
    match index_of_char(source_path, ':') {
        Some(k) => {
            let v = slice_chars(source_path, 0, k);
            assert(v@ =~= source_path@.take(k as int));
            string_of(&v)
        },
        None => string_of(source_path),
    }
}

/// What deleting `conflict` comes down to on `platform`.
pub fn plan_env_deletion(platform: Platform, conflict: &EnvConflict) -> (r: Result<EnvEdit, String>)
    ensures
        edit_view(r) == deletion_plan(platform, conflict.source_type@, conflict.source_path@),
{
    let t = chars_of(conflict.source_type.as_str());
    let p = chars_of(conflict.source_path.as_str());
    let is_system = chars_eq(&t, &chars_of("system"));
    let is_file = chars_eq(&t, &chars_of("file"));
    let unknown = {
        let mut m = chars_of("未知的环境变量来源类型: ");
        append_chars(&mut m, &t);
        m
    };
    match platform {
        Platform::Windows => {
            if is_system {
                Ok(registry_edit_exec(&p))
            } else if is_file {
                Err("Windows 系统不应该有文件类型的环境变量".to_string())
            } else {
                Err(string_of(&unknown))
            }
        },
        _ => {
            if is_file {
                if index_of_char(&p, ':').is_none() {
                    Err("无效的文件路径格式".to_string())
                } else {
                    Ok(EnvEdit::File(file_part_exec(&p)))
                }
            } else if is_system {
                Ok(EnvEdit::Nothing)
            } else {
                Err(string_of(&unknown))
            }
        },
    }
}

/// What restoring `conflict` comes down to on `platform`.
pub fn plan_env_restore(platform: Platform, conflict: &EnvConflict) -> (r: Result<EnvEdit, String>)
    ensures
        edit_view(r) == restore_plan(platform, conflict.source_type@, conflict.source_path@),
{
    let t = chars_of(conflict.source_type.as_str());
    let p = chars_of(conflict.source_path.as_str());
    let windows = match platform {
        Platform::Windows => true,
        _ => false,
    };
    if windows && chars_eq(&t, &chars_of("system")) {
        Ok(registry_edit_exec(&p))
    } else if !windows && chars_eq(&t, &chars_of("file")) {
        Ok(EnvEdit::File(file_part_exec(&p)))
    } else {
        let mut m = chars_of("无法恢复类型为 ");
        append_chars(&mut m, &t);
        append_chars(&mut m, &chars_of(" 的环境变量"));
        Err(string_of(&m))
    }
}

// ---------------------------------------------------------------- files that hold proxy settings

/// The shell start-up files below a home directory.
pub open spec fn shell_rc_files(home: Seq<char>) -> Seq<Seq<char>> {
    seq![home + "/.bashrc"@, home + "/.zshrc"@, home + "/.profile"@]
}

/// The shell start-up files that carry the proxy exports.
pub fn shell_rc_paths(home: &str) -> (r: Vec<String>)
    ensures
        string_views(r@) == shell_rc_files(home@),
{
    let h = chars_of(home);
    let mut r: Vec<String> = Vec::new();
    let mut a = h.clone();
    append_chars(&mut a, &chars_of("/.bashrc"));
    r.push(string_of(&a));
    let mut b = h.clone();
    append_chars(&mut b, &chars_of("/.zshrc"));
    r.push(string_of(&b));
    let mut c = h.clone();
    append_chars(&mut c, &chars_of("/.profile"));
    r.push(string_of(&c));
    assert(string_views(r@) =~= shell_rc_files(home@));
    r
}

/// pip's configuration file below a home directory.
pub open spec fn pip_conf_components(platform: Platform, home: Seq<char>) -> Seq<Seq<char>> {
    if platform == Platform::Windows {
        seq![home, "pip"@, "pip.ini"@]
    } else {
        seq![home, ".config"@, "pip"@, "pip.conf"@]
    }
}

/// pip's configuration file (as path components) below a home directory;
/// its directory is all but the last component.
pub fn pip_conf_path(platform: Platform, home: &str) -> (r: Vec<String>)
    ensures
        string_views(r@) == pip_conf_components(platform, home@),
{
    let mut r: Vec<String> = Vec::new();
    r.push(home.to_string());
    match platform {
        Platform::Windows => {
            r.push("pip".to_string());
            r.push("pip.ini".to_string());
        },
        _ => {
            r.push(".config".to_string());
            r.push("pip".to_string());
            r.push("pip.conf".to_string());
        },
    }
    assert(string_views(r@) =~= pip_conf_components(platform, home@));
    r
}

// ---------------------------------------------------------------- the proxy in effect

/// `split('=').nth(1)`: the text between the first and the second `=`.
pub open spec fn second_field(t: Seq<char>) -> Option<Seq<char>> {
    match find_char(t, '=') {
        Some(k) => {
            let rest = t.skip(k + 1);
            match find_char(rest, '=') {
                Some(m) => Some(rest.take(m)),
                None => Some(rest),
            }
        },
        None => None,
    }
}

/// The proxy a pip configuration line sets, if any: for a (trimmed) line
/// starting with `proxy`, the trimmed text after its `=`, when not empty.
pub open spec fn pip_line_value(line: Seq<char>) -> Option<Seq<char>> {
    let t = trim(line);
    if starts_with(t, "proxy"@) {
        match second_field(t) {
            Some(f) => if trim(f).len() > 0 { Some(trim(f)) } else { None },
            None => None,
        }
    } else {
        None
    }
}

/// The `pip: {value}` entries of the given configuration lines, in order.
pub open spec fn pip_parts(ls: Seq<Seq<char>>) -> Seq<Seq<char>>
    decreases ls.len(),
{
    if ls.len() == 0 {
        Seq::empty()
    } else {
        let rest = pip_parts(ls.drop_last());
        match pip_line_value(ls.last()) {
            Some(v) => rest.push("pip: "@ + v),
            None => rest,
        }
    }
}

/// The entries of the proxy summary: the environment variable, git's and
/// npm's configured proxy (command output, trimmed; npm's `null` and
/// `undefined` mean none) and pip's configuration file.
pub open spec fn summary_parts(
    env_proxy: Option<Seq<char>>,
    git_output: Option<Seq<char>>,
    npm_output: Option<Seq<char>>,
    pip_conf: Option<Seq<char>>,
) -> Seq<Seq<char>> {
    let a = match env_proxy {
        Some(v) => seq!["ENV: "@ + v],
        None => Seq::empty(),
    };
    let b = match git_output {
        Some(o) => if trim(o).len() > 0 { seq!["Git: "@ + trim(o)] } else { Seq::empty() },
        None => Seq::empty(),
    };
    let c = match npm_output {
        Some(o) => {
            let v = trim(o);
            if v.len() > 0 && v != "null"@ && v != "undefined"@ { seq!["npm: "@ + v] } else { Seq::empty() }
        },
        None => Seq::empty(),
    };
    let d = match pip_conf {
        Some(content) => pip_parts(lines(content)),
        None => Seq::empty(),
    };
    a + b + c + d
}

/// The summary of the proxy in effect: its entries joined with ` | `, none
/// when there is no entry.
pub open spec fn proxy_summary(
    env_proxy: Option<Seq<char>>,
    git_output: Option<Seq<char>>,
    npm_output: Option<Seq<char>>,
    pip_conf: Option<Seq<char>>,
) -> Option<Seq<char>> {
    let parts = summary_parts(env_proxy, git_output, npm_output, pip_conf);
    if parts.len() == 0 { None } else { Some(join(parts, " | "@)) }
}

fn second_field_exec(t: &Vec<char>) -> (r: Option<Vec<char>>)
    ensures
        r matches Some(f) ==> second_field(t@) == Some(f@),
        r is None ==> second_field(t@) is None,
{
    let n = t.len();
    match index_of_char(t, '=') {
        Some(k) => {
            let rest = slice_chars(t, k + 1, n);
            assert(rest@ =~= t@.skip(k + 1));
            match index_of_char(&rest, '=') {
                Some(m) => {
                    let f = slice_chars(&rest, 0, m);
                    assert(f@ =~= rest@.take(m as int));
                    Some(f)
                },
                None => Some(rest),
            }
        },
        None => None,
    }
}

fn pip_line_value_exec(line: &Vec<char>) -> (r: Option<Vec<char>>)
    ensures
        r matches Some(v) ==> pip_line_value(line@) == Some(v@),
        r is None ==> pip_line_value(line@) is None,
{
    let t = trimmed(line);
    if has_prefix(&t, &chars_of("proxy")) {
        match second_field_exec(&t) {
            Some(f) => {
                let v = trimmed(&f);
                if v.len() > 0 { Some(v) } else { None }
            },
            None => None,
        }
    } else {
        None
    }
}

fn prefixed(prefix: &str, v: &Vec<char>) -> (r: Vec<char>)
    ensures
        r@ == prefix@ + v@,
{
    let mut r = chars_of(prefix);
    append_chars(&mut r, v);
    r
}

/// The summary of the proxy in effect, from what the environment, git, npm
/// and pip's configuration file hold (`None` where a source gave nothing).
pub fn cli_proxy_summary(
    env_proxy: &Option<String>,
    git_output: &Option<String>,
    npm_output: &Option<String>,
    pip_conf: &Option<String>,
) -> (r: Option<String>)
    ensures
        opt_view(r) == proxy_summary(opt_view(*env_proxy), opt_view(*git_output), opt_view(*npm_output), opt_view(*pip_conf)),
{
    let mut parts: Vec<Vec<char>> = Vec::new();
    let ghost a: Seq<Seq<char>>;
    let ghost b: Seq<Seq<char>>;
    let ghost c: Seq<Seq<char>>;
    match env_proxy {
        Some(v) => {
            parts.push(prefixed("ENV: ", &chars_of(v.as_str())));
            proof { a = seq!["ENV: "@ + v@]; }
        },
        None => {
            proof { a = Seq::empty(); }
        },
    }
    assert(views(parts@) =~= a);
    match git_output {
        Some(o) => {
            let v = trimmed(&chars_of(o.as_str()));
            if v.len() > 0 {
                parts.push(prefixed("Git: ", &v));
                proof { b = seq!["Git: "@ + v@]; }
            } else {
                proof { b = Seq::empty(); }
            }
        },
        None => {
            proof { b = Seq::empty(); }
        },
    }
    assert(views(parts@) =~= a + b);
    match npm_output {
        Some(o) => {
            let v = trimmed(&chars_of(o.as_str()));
            if v.len() > 0 && !chars_eq(&v, &chars_of("null")) && !chars_eq(&v, &chars_of("undefined")) {
                parts.push(prefixed("npm: ", &v));
                proof { c = seq!["npm: "@ + v@]; }
            } else {
                proof { c = Seq::empty(); }
            }
        },
        None => {
            proof { c = Seq::empty(); }
        },
    }
    assert(views(parts@) =~= a + b + c);
    let ghost abc = views(parts@);
    match pip_conf {
        Some(content) => {
            let ls = split_lines(&chars_of(content.as_str()));
            for i in 0..ls.len()
                invariant
                    views(ls@) == lines(content@),
                    views(parts@) == abc + pip_parts(views(ls@).take(i as int)),
            {
                let ghost before = views(parts@);
                assert(views(ls@).take(i + 1).drop_last() =~= views(ls@).take(i as int));
                assert(views(ls@).take(i + 1).last() == ls@[i as int]@);
                match pip_line_value_exec(&ls[i]) {
                    Some(v) => {
                        parts.push(prefixed("pip: ", &v));
                        assert(views(parts@) =~= before.push("pip: "@ + v@));
                    },
                    None => {},
                }
            }
            assert(views(ls@).take(ls@.len() as int) =~= views(ls@));
        },
        None => {
            assert(views(parts@) =~= abc + Seq::empty());
        },
    }
    if parts.len() == 0 {
        None
    } else {
        Some(string_of(&join_chars(&parts, &chars_of(" | "))))
    }
}

// ---------------------------------------------------------------- reading back pip's proxy

proof fn lemma_has_non_ws_of_trim(s: Seq<char>)
    requires
        trim(s).len() > 0,
    ensures
        exists|i: int| 0 <= i < s.len() && !is_ws(#[trigger] s[i]),
{
    if forall|i: int| 0 <= i < s.len() ==> is_ws(#[trigger] s[i]) {
        lemma_trim_start_all_ws(s);
    }
}

proof fn lemma_trim_end_prepend(y: Seq<char>, z: Seq<char>)
    requires
        exists|i: int| 0 <= i < z.len() && !is_ws(#[trigger] z[i]),
    ensures
        trim_end(y + z) == y + trim_end(z),
    decreases z.len(),
{
    assert((y + z).last() == z.last());
    if is_ws(z.last()) {
        let w = choose|i: int| 0 <= i < z.len() && !is_ws(#[trigger] z[i]);
        assert(w < z.len() - 1);
        assert(z.drop_last()[w] == z[w]);
        lemma_trim_end_prepend(y, z.drop_last());
        assert((y + z).drop_last() =~= y + z.drop_last());
    }
}

proof fn lemma_trim_end_start_end(s: Seq<char>)
    ensures
        trim_end(trim_start(trim_end(s))) == trim_end(trim_start(s)),
    decreases s.len(),
{
    if s.len() > 0 && is_ws(s.last()) {
        let d = s.drop_last();
        lemma_trim_end_start_end(d);
        assert(s =~= d.push(s.last()));
        if exists|i: int| 0 <= i < d.len() && !is_ws(#[trigger] d[i]) {
            lemma_trim_start_append(d, seq![s.last()]);
            assert(d + seq![s.last()] =~= d.push(s.last()));
            assert(trim_start(d) + seq![s.last()] =~= trim_start(d).push(s.last()));
            lemma_trim_end_push_ws(trim_start(d), s.last());
        } else {
            lemma_trim_start_all_ws(d);
            assert forall|i: int| 0 <= i < s.len() implies is_ws(#[trigger] s[i]) by {
                if i < d.len() {
                    assert(s[i] == d[i]);
                }
            }
            lemma_trim_start_all_ws(s);
        }
    }
}

/// What `set_tool_proxy_configs` writes into pip's configuration reads back,
/// in the proxy summary, as the (trimmed) proxy that was set.
#[verifier::spinoff_prover]
#[verifier::rlimit(30)]
pub proof fn lemma_pip_summary_reads_back(proxy_url: Seq<char>)
    requires
        !proxy_url.contains('\n'),
        !proxy_url.contains('='),
        trim(proxy_url).len() > 0,
    ensures
        pip_parts(lines("[global]\nproxy = "@ + proxy_url + nl())) == seq!["pip: "@ + trim(proxy_url)],
{
    reveal_strlit("[global]\nproxy = ");
    reveal_strlit("proxy");
    let a = seq!['[', 'g', 'l', 'o', 'b', 'a', 'l', ']'];
    let pfx = seq!['p', 'r', 'o', 'x', 'y', ' ', '=', ' '];
    let b = pfx + proxy_url;
    let s = "[global]\nproxy = "@ + proxy_url + nl();
    assert("[global]\nproxy = "@ =~= a + nl() + pfx);
    let parts = seq![a, b, Seq::<char>::empty()];
    assert(parts.drop_last().drop_last() =~= seq![a]);
    assert(parts.drop_last() =~= seq![a, b]);
    assert(join(seq![a], nl()) == a);
    assert(seq![a, b].drop_last() =~= seq![a]);
    assert(join(seq![a, b], nl()) == a + nl() + b);
    assert(join(parts, nl()) == join(seq![a, b], nl()) + nl() + Seq::<char>::empty());
    assert(join(parts, nl()) =~= s);
    assert forall|i: int| 0 <= i < parts.len() implies !(#[trigger] parts[i]).contains('\n') by {
        if i == 1 {
            if b.contains('\n') {
                let k = choose|k: int| 0 <= k < b.len() && b[k] == '\n';
                assert(k >= 8);
                assert(proxy_url[k - 8] == '\n');
            }
        }
    }
    crate::text::lemma_split_nl_join(parts);
    assert(s.last() == '\n');
    let ls = lines(s);
    assert(ls =~= seq![strip_cr(a), strip_cr(b)]);
    assert(strip_cr(a) == a);
    // the [global] line
    assert(trim_start(a) == a);
    assert(trim_end(a) == a);
    assert(pip_line_value(a) is None) by {
        assert(trim(a)[0] != "proxy"@[0]);
        assert(trim(a).take(5)[0] != "proxy"@[0]);
    }
    assert(ls.drop_last() =~= seq![a]);
    assert(seq![a].drop_last() =~= Seq::<Seq<char>>::empty());
    assert(seq![a].last() == a);
    assert(pip_parts(Seq::<Seq<char>>::empty()) == Seq::<Seq<char>>::empty());
    assert(pip_parts(seq![a]) =~= Seq::<Seq<char>>::empty());
    // the proxy line
    let u = strip_cr(proxy_url);
    assert(strip_cr(b) =~= pfx + u) by {
        if proxy_url.len() > 0 && proxy_url.last() == '\r' {
            assert(b.last() == '\r');
            assert(b.drop_last() =~= pfx + proxy_url.drop_last());
        }
    }
    assert(trim(u) == trim(proxy_url)) by {
        if proxy_url.len() > 0 && proxy_url.last() == '\r' {
            assert(proxy_url =~= u.push('\r'));
            lemma_trim_push_ws(u, '\r');
        }
    }
    lemma_has_non_ws_of_trim(u);
    let x = pfx + u;
    assert(trim_start(x) == x) by {
        assert(x[0] == 'p');
    }
    lemma_trim_end_prepend(pfx, u);
    let te = trim_end(u);
    let t = pfx + te;
    assert(trim(x) == t);
    assert(starts_with(t, "proxy"@)) by {
        assert(t.take(5) =~= "proxy"@);
    }
    crate::text::lemma_find_char_first(t, '=', 6);
    let rest = t.skip(7);
    assert(rest =~= seq![' '] + te);
    // te is a prefix of proxy_url, which holds no '='
    assert forall|k: int| 0 <= k < rest.len() implies rest[k] != '=' by {
        if k > 0 {
            crate::text::lemma_trim_end_is_prefix(u);
            assert(rest[k] == te[k - 1]);
            assert(te[k - 1] == u[k - 1]);
            assert(u[k - 1] == proxy_url[k - 1]);
            if proxy_url[k - 1] == '=' {
                assert(proxy_url.contains('='));
            }
        }
    }
    crate::text::lemma_find_char_none(rest, '=');
    assert(second_field(t) == Some(rest));
    assert(trim_start(rest) == trim_start(te)) by {
        assert(rest.drop_first() =~= te);
    }
    lemma_trim_end_start_end(u);
    assert(trim(rest) == trim(u));
    assert(pip_line_value(strip_cr(b)) == Some(trim(proxy_url)));
    assert(ls.last() == strip_cr(b));
}

// ---------------------------------------------------------------- restoring a variable

/// After the proxy is set, with git reporting the URL it was given (followed
/// by a newline, as `git config` prints it) and pip's configuration as it was
/// written, the summary lists the URL for git and for pip.
pub proof fn lemma_summary_after_set(env_proxy: Option<Seq<char>>, npm_output: Option<Seq<char>>, proxy_url: Seq<char>)
    requires
        !proxy_url.contains('\n'),
        !proxy_url.contains('='),
        trim(proxy_url).len() > 0,
    ensures
        summary_parts(env_proxy, Some(proxy_url + nl()), npm_output, Some("[global]\nproxy = "@ + proxy_url + nl()))
            .contains("Git: "@ + trim(proxy_url)),
        summary_parts(env_proxy, Some(proxy_url + nl()), npm_output, Some("[global]\nproxy = "@ + proxy_url + nl()))
            .contains("pip: "@ + trim(proxy_url)),
{
    assert(proxy_url + nl() =~= proxy_url.push('\n'));
    lemma_trim_push_ws(proxy_url, '\n');
    lemma_pip_summary_reads_back(proxy_url);
    let parts = summary_parts(env_proxy, Some(proxy_url + nl()), npm_output, Some("[global]\nproxy = "@ + proxy_url + nl()));
    let a = match env_proxy {
        Some(v) => seq!["ENV: "@ + v],
        None => Seq::<Seq<char>>::empty(),
    };
    let c = match npm_output {
        Some(o) => {
            let v = trim(o);
            if v.len() > 0 && v != "null"@ && v != "undefined"@ { seq!["npm: "@ + v] } else { Seq::<Seq<char>>::empty() }
        },
        None => Seq::<Seq<char>>::empty(),
    };
    let g = seq!["Git: "@ + trim(proxy_url)];
    let pp = seq!["pip: "@ + trim(proxy_url)];
    assert(parts == a + g + c + pp);
    assert(parts[a.len() as int] == g[0]);
    assert(parts[(a.len() + 1 + c.len()) as int] == pp[0]);
}

proof fn lemma_trim_end_append_ws(y: Seq<char>, z: Seq<char>)
    requires
        forall|i: int| 0 <= i < z.len() ==> is_ws(#[trigger] z[i]),
    ensures
        trim_end(y + z) == trim_end(y),
    decreases z.len(),
{
    if z.len() == 0 {
        assert(y + z =~= y);
    } else {
        assert((y + z).last() == z[z.len() - 1]);
        assert((y + z).drop_last() =~= y + z.drop_last());
        assert forall|i: int| 0 <= i < z.drop_last().len() implies is_ws(#[trigger] z.drop_last()[i]) by {
            assert(z.drop_last()[i] == z[i]);
        }
        lemma_trim_end_append_ws(y, z.drop_last());
    }
}

/// Restoring a variable appends its export line, and that line is read back
/// as the file's last line: `export {name}={value}` exactly.
pub proof fn lemma_restore_reads_back(content: Seq<char>, name: Seq<char>, value: Seq<char>)
    requires
        !name.contains('\n'),
        !value.contains('\n'),
    ensures
        lines(content + nl() + export_prefix(name) + value).len() > 0,
        lines(content + nl() + export_prefix(name) + value).last() == export_prefix(name) + value,
        lines(content + nl() + export_prefix(name) + value).contains(export_prefix(name) + value),
{
    reveal_strlit("export ");
    reveal_strlit("=");
    let ex = seq!['e', 'x', 'p', 'o', 'r', 't', ' '];
    assert("export "@ =~= ex);
    assert("="@ =~= seq!['=']);
    let line = export_prefix(name) + value;
    let p = ex + name + seq!['='];
    assert(line =~= p + value);
    let r = content + nl() + line;
    assert(!line.contains('\n')) by {
        if line.contains('\n') {
            let k = choose|k: int| 0 <= k < line.len() && line[k] == '\n';
            if k < 7 {
                assert(line[k] == ex[k]);
            } else if k < 7 + name.len() {
                assert(line[k] == name[k - 7]);
                assert(name.contains('\n'));
            } else if k == 7 + name.len() {
                assert(line[k] == '=');
            } else {
                assert(line[k] == value[k - 8 - name.len()]);
                assert(value.contains('\n'));
            }
        }
    }
    let c1 = content + nl();
    assert(c1.drop_last() =~= content);
    assert(c1.last() == '\n');
    crate::text::lemma_split_nl_nonempty(content);
    crate::text::lemma_split_nl_append(c1, line);
    assert(r =~= c1 + line);
    assert(r.last() == line.last());
    assert(line.last() != '\n') by {
        assert(line[line.len() - 1] == line.last());
    }
    assert(Seq::<char>::empty() + line =~= line);
    assert(lines(r).last() == line);
    assert(r =~= content + nl() + export_prefix(name) + value);
    let ls = lines(r);
    assert(ls[ls.len() - 1] == line);
}

/// The line that restoring a variable appends to a file is, to the line
/// filter that removes a variable, an assignment of that variable: deleting
/// the variable again takes it out.
pub proof fn lemma_restored_line_assigns(content: Seq<char>, name: Seq<char>, value: Seq<char>)
    requires
        !name.contains('='),
        !name.contains('\n'),
        !value.contains('\n'),
        trim(name) == name,
    ensures
        lines(content + nl() + export_prefix(name) + value).len() > 0,
        assigns_var(lines(content + nl() + export_prefix(name) + value).last(), name),
{
    reveal_strlit("export ");
    reveal_strlit("=");
    let ex = seq!['e', 'x', 'p', 'o', 'r', 't', ' '];
    assert("export "@ =~= ex);
    assert("="@ =~= seq!['=']);
    let line = export_prefix(name) + value;
    let p = ex + name + seq!['='];
    assert(line =~= p + value);
    let r = content + nl() + line;
    lemma_restore_reads_back(content, name, value);
    assert(r =~= content + nl() + export_prefix(name) + value);
    assert(lines(r).last() == line);
    // `line` assigns `name`
    let t = trim(line);
    assert(trim_start(line) == line) by {
        assert(line[0] == 'e');
    }
    assert(t.len() >= p.len() && t.take(p.len() as int) =~= p) by {
        if exists|i: int| 0 <= i < value.len() && !is_ws(#[trigger] value[i]) {
            lemma_trim_end_prepend(p, value);
        } else {
            lemma_trim_end_append_ws(p, value);
            assert(p.last() == '=');
            assert(trim_end(p) == p);
        }
    }
    assert(starts_with(t, "export "@)) by {
        assert(t.take(7) =~= ex);
    }
    let e = t.skip(7);
    assert forall|k: int| 0 <= k < name.len() implies e[k] != '=' by {
        assert(e[k] == t[k + 7]);
        assert(t[k + 7] == t.take(p.len() as int)[k + 7]);
        assert(p[k + 7] == name[k]);
        if name[k] == '=' {
            assert(name.contains('='));
        }
    }
    assert(e[name.len() as int] == '=') by {
        assert(t[name.len() as int + 7] == t.take(p.len() as int)[name.len() as int + 7]);
    }
    crate::text::lemma_find_char_first(e, '=', name.len() as int);
    assert(e.take(name.len() as int) =~= name) by {
        assert forall|k: int| 0 <= k < name.len() implies e.take(name.len() as int)[k] == name[k] by {
            assert(t[k + 7] == t.take(p.len() as int)[k + 7]);
        }
    }
    assert(assigns_var(line, name));
    assert(content + nl() + export_prefix(name) + value =~= r);
}

// ---------------------------------------------------------------- reading back the proxy exports

/// The line that sets the `k`-th proxy variable.
pub open spec fn export_line(k: int, proxy_url: Seq<char>) -> Seq<char> {
    export_prefix(proxy_assignments(proxy_url)[k].0) + proxy_assignments(proxy_url)[k].1
}

/// The first `k` export lines, in order.
pub open spec fn export_lines(k: int, proxy_url: Seq<char>) -> Seq<Seq<char>> {
    Seq::new(k as nat, |j: int| export_line(j, proxy_url))
}

/// A URL that fits on one line.
pub open spec fn single_line(u: Seq<char>) -> bool {
    !u.contains('\n') && (u.len() == 0 || u.last() != '\r')
}

proof fn lemma_export_line_shape(k: int, proxy_url: Seq<char>)
    requires
        0 <= k < 6,
        !proxy_url.contains('\n'),
    ensures
        !export_line(k, proxy_url).contains('\n'),
        export_line(k, proxy_url).len() > 0,
        single_line(proxy_url) ==> export_line(k, proxy_url).last() != '\r',
        export_line(k, proxy_url).last() != '\n',
        single_line(proxy_url) ==> strip_cr(export_line(k, proxy_url)) == export_line(k, proxy_url),
        trim_start(export_line(k, proxy_url)) == export_line(k, proxy_url),
{
    reveal_strlit("export ");
    reveal_strlit("=");
    reveal_strlit("HTTP_PROXY");
    reveal_strlit("http_proxy");
    reveal_strlit("HTTPS_PROXY");
    reveal_strlit("https_proxy");
    reveal_strlit("NO_PROXY");
    reveal_strlit("no_proxy");
    reveal_strlit("localhost,127.0.0.1");
    let name = proxy_assignments(proxy_url)[k].0;
    let value = proxy_assignments(proxy_url)[k].1;
    let pre = export_prefix(name);
    let line = export_line(k, proxy_url);
    assert(line == pre + value);
    assert(!pre.contains('\n')) by {
        if pre.contains('\n') {
            let i = choose|i: int| 0 <= i < pre.len() && pre[i] == '\n';
            if i >= 7 && i < 7 + name.len() {
                assert(pre[i] == name[i - 7]);
            }
        }
    }
    assert(!value.contains('\n')) by {
        if k >= 4 {
            if value.contains('\n') {
                let i = choose|i: int| 0 <= i < value.len() && value[i] == '\n';
            }
        }
    }
    assert(!line.contains('\n')) by {
        if line.contains('\n') {
            let i = choose|i: int| 0 <= i < line.len() && line[i] == '\n';
            if i < pre.len() {
                assert(line[i] == pre[i]);
                assert(pre.contains('\n'));
            } else {
                assert(line[i] == value[i - pre.len()]);
                assert(value.contains('\n'));
            }
        }
    }
    if single_line(proxy_url) {
        assert(line.last() != '\r') by {
            if value.len() == 0 {
                assert(line.last() == pre.last());
            } else {
                assert(line.last() == value.last());
            }
        }
    }
    assert(line.last() != '\n') by {
        assert(line[line.len() - 1] == line.last());
    }
    assert(line[0] == 'e');
}

proof fn lemma_export_lines_distinct(j: int, k: int, proxy_url: Seq<char>)
    requires
        0 <= j < 6,
        0 <= k < 6,
        j != k,
        !proxy_url.contains('\n'),
    ensures
        !is_export_of(export_line(j, proxy_url), proxy_var_names()[k]),
{
    reveal_strlit("export ");
    reveal_strlit("=");
    reveal_strlit("HTTP_PROXY");
    reveal_strlit("http_proxy");
    reveal_strlit("HTTPS_PROXY");
    reveal_strlit("https_proxy");
    reveal_strlit("NO_PROXY");
    reveal_strlit("no_proxy");
    lemma_export_line_shape(j, proxy_url);
    let line = export_line(j, proxy_url);
    let nj = proxy_var_names()[j];
    let nk = proxy_var_names()[k];
    let pk = export_prefix(nk);
    assert(proxy_assignments(proxy_url)[j].0 == nj);
    assert(line[7] == nj[0] && line[11] == nj[4]);
    assert(pk[7] == nk[0] && pk[11] == nk[4]);
    assert(nj[0] != nk[0] || nj[4] != nk[4]);
    if starts_with(line, pk) {
        assert(line.take(pk.len() as int)[7] == line[7]);
        assert(line.take(pk.len() as int)[11] == line[11]);
    }
}

proof fn lemma_empty_not_export(v: Seq<char>)
    ensures
        !is_export_of(Seq::empty(), v),
{
    reveal_strlit("export ");
    assert(trim_start(Seq::<char>::empty()) == Seq::<char>::empty());
}

/// The lines of a file after one export is set: the kept lines (without a
/// trailing carriage return, or one empty line when none is kept), then the
/// new export.
proof fn lemma_lines_with_export(content: Seq<char>, var: Seq<char>, value: Seq<char>)
    requires
        !(export_prefix(var) + value).contains('\n'),
        (export_prefix(var) + value).last() != '\n',
    ensures
        ({
            let f = lines(content).filter(kept_pred(LineRule::NotExportOf(var)));
            let pre = if f.len() == 0 {
                seq![Seq::<char>::empty()]
            } else {
                f.map_values(|l: Seq<char>| strip_cr(l))
            };
            lines(with_export(content, var, value)) == pre.push(export_prefix(var) + value)
        }),
{
    reveal_strlit("export ");
    let line = export_prefix(var) + value;
    assert(line.len() > 0);
    let f = lines(content).filter(kept_pred(LineRule::NotExportOf(var)));
    let parts = if f.len() == 0 { seq![Seq::<char>::empty(), line] } else { f.push(line) };
    let s = with_export(content, var, value);
    assert(s =~= join(f, nl()) + nl() + line);
    if f.len() == 0 {
        assert(parts.drop_last() =~= seq![Seq::<char>::empty()]);
        assert(join(parts.drop_last(), nl()) == Seq::<char>::empty());
    } else {
        assert(parts.drop_last() =~= f);
    }
    assert(join(parts, nl()) =~= s);
    broadcast use vstd::seq_lib::group_filter_ensures;
    lemma_lines_no_newline(content);
    assert forall|i: int| 0 <= i < parts.len() implies !(#[trigger] parts[i]).contains('\n') by {
        if f.len() > 0 && i < f.len() {
            assert(parts[i] == f[i]);
            assert(f.contains(f[i]));
            lines(content).lemma_filter_contains_rev(kept_pred(LineRule::NotExportOf(var)), f[i]);
            let m = choose|m: int| 0 <= m < lines(content).len() && lines(content)[m] == f[i];
            assert(!lines(content)[m].contains('\n'));
        }
    }
    crate::text::lemma_split_nl_join(parts);
    assert(s.last() == line.last());
    assert(s.len() > 0);
    let pre = if f.len() == 0 {
        seq![Seq::<char>::empty()]
    } else {
        f.map_values(|l: Seq<char>| strip_cr(l))
    };
    assert(parts.drop_last().map_values(|l: Seq<char>| strip_cr(l)) =~= pre);
    assert(lines(s) =~= pre.push(line));
}

/// After the first `k` exports are set, the file ends with their lines in
/// order, and no line before them exports any of those variables.
#[verifier::spinoff_prover]
#[verifier::rlimit(60)]
proof fn lemma_exports_so_far(content: Seq<char>, proxy_url: Seq<char>, k: int)
    requires
        0 <= k <= 6,
        single_line(proxy_url),
    ensures
        ({
            let ls = lines(apply_exports(content, proxy_assignments(proxy_url).take(k)));
            &&& ls.len() >= k
            &&& ls.skip(ls.len() - k) == export_lines(k, proxy_url)
            &&& forall|i: int, j: int| 0 <= i < ls.len() - k && 0 <= j < k ==>
                !is_export_of(#[trigger] ls[i], #[trigger] proxy_var_names()[j])
        }),
    decreases k,
{
    let a = proxy_assignments(proxy_url);
    if k == 0 {
        assert(a.take(0) =~= Seq::<(Seq<char>, Seq<char>)>::empty());
        let ls = lines(content);
        assert(ls.skip(ls.len() as int) =~= export_lines(0, proxy_url));
    } else {
        lemma_exports_so_far(content, proxy_url, k - 1);
        let c0 = apply_exports(content, a.take(k - 1));
        assert(a.take(k).drop_last() =~= a.take(k - 1));
        assert(a.take(k).last() == a[k - 1]);
        let var = a[k - 1].0;
        let value = a[k - 1].1;
        assert(var == proxy_var_names()[k - 1]);
        let line = export_prefix(var) + value;
        assert(line == export_line(k - 1, proxy_url));
        lemma_export_line_shape(k - 1, proxy_url);
        let ls = lines(c0);
        let n = ls.len();
        let pp = ls.take(n - (k - 1));
        let tt = ls.skip(n - (k - 1));
        assert(ls =~= pp + tt);
        let pred = kept_pred(LineRule::NotExportOf(var));
        assert forall|i: int| 0 <= i < tt.len() implies pred(#[trigger] tt[i]) by {
            assert(tt[i] == export_line(i, proxy_url));
            lemma_export_lines_distinct(i, k - 1, proxy_url);
        }
        lemma_filter_all(tt, pred);
        Seq::filter_distributes_over_add(pp, tt, pred);
        let fp = pp.filter(pred);
        let f = ls.filter(pred);
        assert(f == fp + tt);
        lemma_lines_with_export(c0, var, value);
        let ls2 = lines(apply_exports(content, a.take(k)));
        assert(apply_exports(content, a.take(k)) == with_export(c0, var, value));
        broadcast use vstd::seq_lib::group_filter_ensures;
        // the kept lines before the exports
        let pre = if f.len() == 0 {
            seq![Seq::<char>::empty()]
        } else {
            f.map_values(|l: Seq<char>| strip_cr(l))
        };
        assert(ls2 == pre.push(line));
        let pre_p = if f.len() == 0 {
            seq![Seq::<char>::empty()]
        } else {
            fp.map_values(|l: Seq<char>| strip_cr(l))
        };
        assert(pre =~= pre_p + tt) by {
            if f.len() > 0 {
                assert forall|i: int| 0 <= i < tt.len() implies strip_cr(#[trigger] tt[i]) == tt[i] by {
                    assert(tt[i] == export_line(i, proxy_url));
                    lemma_export_line_shape(i, proxy_url);
                }
            } else {
                assert(tt.len() == 0);
            }
        }
        assert(ls2 =~= pre_p + tt.push(line));
        assert(tt.push(line) =~= export_lines(k, proxy_url));
        assert(ls2.skip(ls2.len() - k) =~= export_lines(k, proxy_url));
        assert forall|i: int, j: int| 0 <= i < ls2.len() - k && 0 <= j < k implies
            !is_export_of(#[trigger] ls2[i], #[trigger] proxy_var_names()[j]) by {
            assert(ls2[i] == pre_p[i]);
            if f.len() == 0 {
                lemma_empty_not_export(proxy_var_names()[j]);
            } else {
                let x = fp[i];
                assert(pre_p[i] == strip_cr(x));
                assert(pred(x));
                assert(fp.contains(x));
                pp.lemma_filter_contains_rev(pred, x);
                let m = choose|m: int| 0 <= m < pp.len() && pp[m] == x;
                assert(ls[m] == pp[m]);
                if j < k - 1 {
                    assert(!is_export_of(ls[m], proxy_var_names()[j]));
                } else {
                    assert(!is_export_of(x, var));
                }
                lemma_prefix_strip_cr(x, export_prefix(proxy_var_names()[j]));
            }
        }
    }
}

/// The lines of a shell start-up file after it is set to use `proxy_url`.
pub open spec fn proxied_lines(content: Seq<char>, proxy_url: Seq<char>) -> Seq<Seq<char>> {
    lines(apply_exports(content, proxy_assignments(proxy_url)))
}

/// A shell start-up file set to use a (single-line) proxy ends with the six
/// exports, in order, and no line before them exports a proxy variable: read
/// back, each variable has exactly the value that was set.
pub proof fn lemma_set_proxy_reads_back(content: Seq<char>, proxy_url: Seq<char>)
    requires
        single_line(proxy_url),
    ensures
        proxied_lines(content, proxy_url).len() >= 6,
        forall|k: int| 0 <= k < 6 ==>
            proxied_lines(content, proxy_url)[proxied_lines(content, proxy_url).len() - 6 + k]
                == export_prefix(#[trigger] proxy_var_names()[k]) + proxy_assignments(proxy_url)[k].1,
        forall|i: int| 0 <= i < proxied_lines(content, proxy_url).len() - 6 ==>
            !is_proxy_export(#[trigger] proxied_lines(content, proxy_url)[i]),
{
    lemma_exports_so_far(content, proxy_url, 6);
    let a = proxy_assignments(proxy_url);
    assert(a.take(6) =~= a);
    let ls = proxied_lines(content, proxy_url);
    assert forall|k: int| 0 <= k < 6 implies ls[ls.len() - 6 + k]
        == export_prefix(#[trigger] proxy_var_names()[k]) + a[k].1 by {
        assert(ls[ls.len() - 6 + k] == ls.skip(ls.len() - 6)[k]);
        assert(export_lines(6, proxy_url)[k] == export_line(k, proxy_url));
    }
    assert forall|i: int| 0 <= i < ls.len() - 6 implies !is_proxy_export(#[trigger] ls[i]) by {
        assert forall|j: int| 0 <= j < 6 implies !is_export_of(ls[i], #[trigger] proxy_var_names()[j]) by {
        }
    }
}

// ---------------------------------------------------------------- setting twice, clearing after setting

/// `strip_cr` applied `n` times: the line as it reads after `n` more readings.
pub open spec fn strip_cr_n(l: Seq<char>, n: nat) -> Seq<char>
    decreases n,
{
    if n == 0 {
        l
    } else {
        strip_cr(strip_cr_n(l, (n - 1) as nat))
    }
}

/// At most `n` carriage returns end the line.
pub open spec fn cr_tail_at_most(l: Seq<char>, n: nat) -> bool {
    strip_cr_n(l, n).len() == 0 || strip_cr_n(l, n).last() != '\r'
}

/// The line exports none of the first `k` proxy variables.
pub open spec fn exports_none_before(l: Seq<char>, k: int) -> bool {
    forall|j: int| 0 <= j < k ==> !is_export_of(l, #[trigger] proxy_var_names()[j])
}

spec fn keep_before(k: int) -> spec_fn(Seq<char>) -> bool {
    |l: Seq<char>| exports_none_before(l, k)
}

spec fn stripped(n: nat) -> spec_fn(Seq<char>) -> Seq<char> {
    |l: Seq<char>| strip_cr_n(l, n)
}

/// The lines ahead of the exports once the first `k` (at least one) proxy
/// variables are set: the lines of `content` that export none of them, each
/// read back `k` times; one empty line when the first export kept no line.
spec fn head_after(content: Seq<char>, k: int) -> Seq<Seq<char>> {
    let ls = lines(content);
    if ls.filter(kept_pred(LineRule::NotExportOf(proxy_var_names()[0]))).len() == 0 {
        seq![Seq::<char>::empty()]
    } else {
        ls.filter(keep_before(k)).map_values(stripped(k as nat))
    }
}

/// The first `k` exports as they read once the first `k` proxy variables are set.
spec fn exports_after(k: int, proxy_url: Seq<char>) -> Seq<Seq<char>> {
    Seq::new(k as nat, |j: int| strip_cr_n(export_line(j, proxy_url), (k - 1 - j) as nat))
}

/// The six exports once a setting that ended with all six sets the first `m`
/// variables again: those not yet set again, then those set again.
spec fn exports_rotated(m: int, proxy_url: Seq<char>) -> Seq<Seq<char>> {
    Seq::new(
        6,
        |i: int| strip_cr_n(export_line(if i + m < 6 { i + m } else { i + m - 6 }, proxy_url), (5 - i) as nat),
    )
}

/// Dropping a trailing carriage return changes no line's being an export.
proof fn lemma_strip_keeps_export(x: Seq<char>, var: Seq<char>)
    ensures
        is_export_of(strip_cr(x), var) == is_export_of(x, var),
{
    reveal_strlit("=");
    let p = export_prefix(var);
    assert(p[p.len() - 1] == '=');
    if !is_export_of(x, var) {
        lemma_prefix_strip_cr(x, p);
    } else if x.len() > 0 && x.last() == '\r' {
        let y = x.drop_last();
        assert(x =~= y + seq!['\r']);
        if exists|i: int| 0 <= i < y.len() && !is_ws(#[trigger] y[i]) {
            lemma_trim_start_append(y, seq!['\r']);
            let t = trim_start(y);
            let tx = t + seq!['\r'];
            assert(tx.take(p.len() as int) == p);
            if p.len() == tx.len() {
                assert(p[p.len() - 1] == tx[t.len() as int]);
            }
            assert(t.take(p.len() as int) =~= tx.take(p.len() as int));
        } else {
            assert forall|i: int| 0 <= i < x.len() implies is_ws(#[trigger] x[i]) by {
                if i < y.len() {
                    assert(x[i] == y[i]);
                }
            }
            lemma_trim_start_all_ws(x);
        }
    }
}

proof fn lemma_strip_n_keeps_export(x: Seq<char>, var: Seq<char>, n: nat)
    ensures
        is_export_of(strip_cr_n(x, n), var) == is_export_of(x, var),
    decreases n,
{
    if n > 0 {
        lemma_strip_n_keeps_export(x, var, (n - 1) as nat);
        lemma_strip_keeps_export(strip_cr_n(x, (n - 1) as nat), var);
    }
}

proof fn lemma_strip_n_empty(n: nat)
    ensures
        strip_cr_n(Seq::empty(), n) == Seq::<char>::empty(),
    decreases n,
{
    if n > 0 {
        lemma_strip_n_empty((n - 1) as nat);
    }
}

proof fn lemma_strip_n_add(x: Seq<char>, a: nat, b: nat)
    ensures
        strip_cr_n(strip_cr_n(x, a), b) == strip_cr_n(x, a + b),
    decreases b,
{
    if b > 0 {
        lemma_strip_n_add(x, a, (b - 1) as nat);
        assert((a + b - 1) as nat == a + (b - 1) as nat);
    }
}

proof fn lemma_strip_n_stable(x: Seq<char>, a: nat, b: nat)
    requires
        cr_tail_at_most(x, a),
        a <= b,
    ensures
        strip_cr_n(x, b) == strip_cr_n(x, a),
    decreases b,
{
    if b > a {
        lemma_strip_n_stable(x, a, (b - 1) as nat);
    }
}

/// What the `j`-th export line is, read back any number of times: a line
/// without newline that exports the `k`-th proxy variable exactly when `j == k`.
proof fn lemma_export_line_of(j: int, k: int, n: nat, proxy_url: Seq<char>)
    requires
        0 <= j < 6,
        0 <= k < 6,
        !proxy_url.contains('\n'),
    ensures
        is_export_of(strip_cr_n(export_line(j, proxy_url), n), proxy_var_names()[k]) == (j == k),
        export_line(j, proxy_url) == export_prefix(proxy_assignments(proxy_url)[j].0)
            + proxy_assignments(proxy_url)[j].1,
        proxy_assignments(proxy_url)[j].0 == proxy_var_names()[j],
        !export_line(j, proxy_url).contains('\n'),
        export_line(j, proxy_url).len() > 0,
        export_line(j, proxy_url).last() != '\n',
{
    lemma_export_line_shape(j, proxy_url);
    lemma_strip_n_keeps_export(export_line(j, proxy_url), proxy_var_names()[k], n);
    if j == k {
        let line = export_line(j, proxy_url);
        let pre = export_prefix(proxy_var_names()[j]);
        assert(line.take(pre.len() as int) =~= pre);
    } else {
        lemma_export_lines_distinct(j, k, proxy_url);
    }
}

/// Filtering out the exports of the `k`-th variable after reading lines back
/// is filtering them out before.
proof fn lemma_filter_stripped(ls: Seq<Seq<char>>, k: int, a: nat)
    requires
        0 <= k < 6,
    ensures
        ls.filter(keep_before(k)).map_values(stripped(a)).filter(
            kept_pred(LineRule::NotExportOf(proxy_var_names()[k])),
        ) == ls.filter(keep_before(k + 1)).map_values(stripped(a)),
    decreases ls.len(),
{
    let kp = kept_pred(LineRule::NotExportOf(proxy_var_names()[k]));
    broadcast use vstd::seq_lib::group_filter_ensures;
    if ls.len() == 0 {
        assert(ls.filter(keep_before(k)) =~= ls);
        assert(ls.filter(keep_before(k + 1)) =~= ls);
        let e = ls.filter(keep_before(k)).map_values(stripped(a));
        assert(e.filter(kp) =~= e);
    } else {
        let x = ls.last();
        let l0 = ls.drop_last();
        lemma_filter_stripped(l0, k, a);
        assert(l0.push(x) =~= ls);
        l0.lemma_filter_push(x, keep_before(k));
        l0.lemma_filter_push(x, keep_before(k + 1));
        lemma_strip_n_keeps_export(x, proxy_var_names()[k], a);
        assert(exports_none_before(x, k + 1) == (exports_none_before(x, k) && !is_export_of(
            x,
            proxy_var_names()[k],
        ))) by {
            if exports_none_before(x, k) && !is_export_of(x, proxy_var_names()[k]) {
                assert forall|j: int| 0 <= j < k + 1 implies !is_export_of(x, #[trigger] proxy_var_names()[j]) by {
                    if j < k {
                        assert(!is_export_of(x, proxy_var_names()[j]));
                    }
                }
            }
        }
        let s0 = l0.filter(keep_before(k));
        let t0 = l0.filter(keep_before(k + 1));
        if exports_none_before(x, k) {
            assert(s0.push(x).map_values(stripped(a)) =~= s0.map_values(stripped(a)).push(strip_cr_n(x, a)));
            s0.map_values(stripped(a)).lemma_filter_push(strip_cr_n(x, a), kp);
            if !is_export_of(x, proxy_var_names()[k]) {
                assert(t0.push(x).map_values(stripped(a)) =~= t0.map_values(stripped(a)).push(strip_cr_n(x, a)));
            }
        }
    }
}

proof fn lemma_filter_none<A>(s: Seq<A>, p: spec_fn(A) -> bool)
    requires
        forall|i: int| 0 <= i < s.len() ==> !p(#[trigger] s[i]),
    ensures
        s.filter(p) == Seq::<A>::empty(),
{
    broadcast use vstd::seq_lib::group_filter_ensures;
    let f = s.filter(p);
    if f.len() > 0 {
        assert(f.contains(f[0]));
        s.lemma_filter_contains_rev(p, f[0]);
    }
    assert(f =~= Seq::<A>::empty());
}

/// The lines of a file after the first `k` variables of a proxy setting are
/// set: the lines that export none of them, then their exports in order.
#[verifier::spinoff_prover]
#[verifier::rlimit(60)]
proof fn lemma_first_setting(content: Seq<char>, proxy_url: Seq<char>, k: int)
    requires
        1 <= k <= 6,
        !proxy_url.contains('\n'),
    ensures
        lines(apply_exports(content, proxy_assignments(proxy_url).take(k)))
            == head_after(content, k) + exports_after(k, proxy_url),
    decreases k,
{
    let a = proxy_assignments(proxy_url);
    let ls = lines(content);
    lemma_apply_step(content, proxy_url, k);
    lemma_export_line_of(k - 1, k - 1, 0, proxy_url);
    let var = proxy_var_names()[k - 1];
    let line = export_line(k - 1, proxy_url);
    let kp = kept_pred(LineRule::NotExportOf(var));
    broadcast use vstd::seq_lib::group_filter_ensures;
    if k == 1 {
        assert(a.take(0) =~= Seq::<(Seq<char>, Seq<char>)>::empty());
        lemma_lines_with_export(content, var, a[0].1);
        let f = ls.filter(kp);
        if f.len() > 0 {
            lemma_filter_all(ls, keep_before(0));
            lemma_filter_stripped(ls, 0, 0);
            assert(ls.map_values(stripped(0)) =~= ls);
            assert(f.map_values(|l: Seq<char>| strip_cr(l)) =~= head_after(content, 1));
        }
        assert(exports_after(1, proxy_url) =~= seq![line]);
    } else {
        lemma_first_setting(content, proxy_url, k - 1);
        let c0 = apply_exports(content, a.take(k - 1));
        let h = head_after(content, k - 1);
        let e = exports_after(k - 1, proxy_url);
        lemma_lines_with_export(c0, var, a[k - 1].1);
        assert forall|i: int| 0 <= i < e.len() implies kp(#[trigger] e[i]) by {
            lemma_export_line_of(i, k - 1, (k - 2 - i) as nat, proxy_url);
        }
        lemma_filter_all(e, kp);
        let f0 = ls.filter(kept_pred(LineRule::NotExportOf(proxy_var_names()[0])));
        if f0.len() == 0 {
            lemma_empty_not_export(var);
            lemma_filter_all(h, kp);
        } else {
            lemma_filter_stripped(ls, k - 1, (k - 1) as nat);
        }
        Seq::filter_distributes_over_add(h, e, kp);
        let f = lines(c0).filter(kp);
        assert(f == h.filter(kp) + e);
        assert(f.len() > 0) by {
            assert(e.len() == k - 1);
        }
        let g = f.map_values(|l: Seq<char>| strip_cr(l));
        if f0.len() == 0 {
            assert(h.filter(kp) == h);
            assert(g =~= head_after(content, k) + e.map_values(|l: Seq<char>| strip_cr(l)));
        } else {
            assert(g =~= head_after(content, k) + e.map_values(|l: Seq<char>| strip_cr(l)));
        }
        assert(e.map_values(|l: Seq<char>| strip_cr(l)).push(line) =~= exports_after(k, proxy_url));
        assert(g.push(line) =~= head_after(content, k) + exports_after(k, proxy_url));
    }
}

/// The lines ahead of the exports after a full setting export none of the
/// proxy variables, however often they are read back.
proof fn lemma_head_exports_nothing(content: Seq<char>, k: int, n: nat)
    requires
        0 <= k < 6,
    ensures
        forall|i: int| 0 <= i < head_after(content, 6).map_values(stripped(n)).len() ==>
            kept_pred(LineRule::NotExportOf(proxy_var_names()[k]))(
                #[trigger] head_after(content, 6).map_values(stripped(n))[i],
            ),
{
    let ls = lines(content);
    let h = head_after(content, 6);
    let hm = h.map_values(stripped(n));
    let var = proxy_var_names()[k];
    let f0 = ls.filter(kept_pred(LineRule::NotExportOf(proxy_var_names()[0])));
    broadcast use vstd::seq_lib::group_filter_ensures;
    assert forall|i: int| 0 <= i < hm.len() implies kept_pred(LineRule::NotExportOf(var))(#[trigger] hm[i]) by {
        lemma_strip_n_keeps_export(h[i], var, n);
        if f0.len() == 0 {
            lemma_empty_not_export(var);
        } else {
            let y = ls.filter(keep_before(6))[i];
            assert(keep_before(6)(y));
            assert(exports_none_before(y, 6));
            assert(!is_export_of(y, proxy_var_names()[k]));
            lemma_strip_n_keeps_export(y, var, 6);
        }
    }
}

/// Setting the `m`-th variable again takes its export from the front of the
/// six and puts it, freshly written, at the end.
#[verifier::spinoff_prover]
proof fn lemma_rotated_step(m: int, proxy_url: Seq<char>)
    requires
        1 <= m <= 6,
        !proxy_url.contains('\n'),
    ensures
        exports_rotated(m - 1, proxy_url).filter(kept_pred(LineRule::NotExportOf(proxy_var_names()[m - 1])))
            == exports_rotated(m - 1, proxy_url).drop_first(),
        exports_rotated(m - 1, proxy_url).drop_first().map_values(|l: Seq<char>| strip_cr(l)).push(
            export_line(m - 1, proxy_url),
        ) == exports_rotated(m, proxy_url),
{
    let r = exports_rotated(m - 1, proxy_url);
    let kp = kept_pred(LineRule::NotExportOf(proxy_var_names()[m - 1]));
    let rest = r.drop_first();
    assert(r =~= seq![r[0]] + rest);
    lemma_export_line_of(m - 1, m - 1, 5, proxy_url);
    lemma_filter_single(r[0], kp);
    assert forall|i: int| 0 <= i < rest.len() implies kp(#[trigger] rest[i]) by {
        let idx = if i + m < 6 { i + m } else { i + m - 6 };
        assert(rest[i] == r[i + 1]);
        lemma_export_line_of(idx, m - 1, (4 - i) as nat, proxy_url);
    }
    lemma_filter_all(rest, kp);
    Seq::filter_distributes_over_add(seq![r[0]], rest, kp);
    assert(seq![r[0]].filter(kp) + rest =~= rest);
    lemma_rotated_shift(m, proxy_url);
}

proof fn lemma_rotated_shift(m: int, proxy_url: Seq<char>)
    requires
        1 <= m <= 6,
    ensures
        exports_rotated(m - 1, proxy_url).drop_first().map_values(|l: Seq<char>| strip_cr(l)).push(
            export_line(m - 1, proxy_url),
        ) == exports_rotated(m, proxy_url),
{
    let r = exports_rotated(m - 1, proxy_url);
    let rest = r.drop_first();
    let t = exports_rotated(m, proxy_url);
    let g = rest.map_values(|l: Seq<char>| strip_cr(l)).push(export_line(m - 1, proxy_url));
    assert forall|i: int| 0 <= i < 6 implies #[trigger] g[i] == t[i] by {
        let idx = if i + m < 6 { i + m } else { i + m - 6 };
        let x = export_line(idx, proxy_url);
        if i < 5 {
            assert(rest[i] == r[i + 1]);
            assert(r[i + 1] == strip_cr_n(x, (4 - i) as nat));
            assert(t[i] == strip_cr_n(x, (5 - i) as nat));
            assert(strip_cr_n(x, (5 - i) as nat) == strip_cr(strip_cr_n(x, (4 - i) as nat)));
        } else {
            assert(idx == m - 1);
            assert(t[5] == strip_cr_n(x, 0));
        }
    }
    assert(g =~= t);
}

/// Setting the same proxy again, after the first `m` variables: the lines
/// ahead read back `m` more times, and the exports set again moved to the end.
#[verifier::spinoff_prover]
#[verifier::rlimit(60)]
proof fn lemma_second_setting(content: Seq<char>, proxy_url: Seq<char>, m: int)
    requires
        0 <= m <= 6,
        !proxy_url.contains('\n'),
    ensures
        lines(apply_exports(apply_exports(content, proxy_assignments(proxy_url)), proxy_assignments(proxy_url).take(m)))
            == head_after(content, 6).map_values(stripped(m as nat)) + exports_rotated(m, proxy_url),
    decreases m,
{
    let a = proxy_assignments(proxy_url);
    let once = apply_exports(content, a);
    let h = head_after(content, 6);
    let ls = lines(content);
    let f0 = ls.filter(kept_pred(LineRule::NotExportOf(proxy_var_names()[0])));
    broadcast use vstd::seq_lib::group_filter_ensures;
    if m == 0 {
        assert(a.take(0) =~= Seq::<(Seq<char>, Seq<char>)>::empty());
        assert(a.take(6) =~= a);
        lemma_first_setting(content, proxy_url, 6);
        assert(h.map_values(stripped(0)) =~= h);
        assert(exports_rotated(0, proxy_url) =~= exports_after(6, proxy_url));
    } else {
        lemma_second_setting(content, proxy_url, m - 1);
        lemma_apply_step(once, proxy_url, m);
        lemma_export_line_of(m - 1, m - 1, 0, proxy_url);
        let var = proxy_var_names()[m - 1];
        let line = export_line(m - 1, proxy_url);
        let kp = kept_pred(LineRule::NotExportOf(var));
        let d0 = apply_exports(once, a.take(m - 1));
        let hm = h.map_values(stripped((m - 1) as nat));
        let r = exports_rotated(m - 1, proxy_url);
        lemma_lines_with_export(d0, var, a[m - 1].1);
        lemma_head_exports_nothing(content, m - 1, (m - 1) as nat);
        lemma_filter_all(hm, kp);
        let rest = r.drop_first();
        lemma_rotated_step(m, proxy_url);
        Seq::filter_distributes_over_add(hm, r, kp);
        let f = lines(d0).filter(kp);
        assert(f =~= hm + rest);
        let g = f.map_values(|l: Seq<char>| strip_cr(l));
        assert(hm.map_values(|l: Seq<char>| strip_cr(l)) =~= h.map_values(stripped(m as nat)));
        assert(rest.map_values(|l: Seq<char>| strip_cr(l)).push(line) =~= exports_rotated(m, proxy_url));
        assert(g.push(line) =~= h.map_values(stripped(m as nat)) + exports_rotated(m, proxy_url));
    }
}

/// One more assignment of a proxy setting, written as `with_export`.
proof fn lemma_apply_step(content: Seq<char>, proxy_url: Seq<char>, k: int)
    requires
        1 <= k <= 6,
    ensures
        apply_exports(content, proxy_assignments(proxy_url).take(k)) == with_export(
            apply_exports(content, proxy_assignments(proxy_url).take(k - 1)),
            proxy_assignments(proxy_url)[k - 1].0,
            proxy_assignments(proxy_url)[k - 1].1,
        ),
{
    let a = proxy_assignments(proxy_url);
    assert(a.take(k).drop_last() =~= a.take(k - 1));
    assert(a.take(k).last() == a[k - 1]);
}

proof fn lemma_filter_single<A>(x: A, p: spec_fn(A) -> bool)
    requires
        !p(x),
    ensures
        seq![x].filter(p) == Seq::<A>::empty(),
{
    broadcast use vstd::seq_lib::group_filter_ensures;
    Seq::<A>::empty().lemma_filter_push(x, p);
    assert(Seq::<A>::empty().push(x) =~= seq![x]);
    assert(Seq::<A>::empty().filter(p) =~= Seq::<A>::empty());
}

proof fn lemma_set_proxy_twice_one_line(content: Seq<char>, proxy_url: Seq<char>)
    requires
        !proxy_url.contains('\n'),
        forall|i: int| 0 <= i < lines(content).len() && !is_proxy_export(#[trigger] lines(content)[i])
            ==> cr_tail_at_most(lines(content)[i], 5),
    ensures
        apply_exports(apply_exports(content, proxy_assignments(proxy_url)), proxy_assignments(proxy_url))
            == apply_exports(content, proxy_assignments(proxy_url)),
{
    let a = proxy_assignments(proxy_url);
    let once = apply_exports(content, a);
    let ls = lines(content);
    let kp = kept_pred(LineRule::NotExportOf(proxy_var_names()[5]));
    let f0 = ls.filter(kept_pred(LineRule::NotExportOf(proxy_var_names()[0])));
    broadcast use vstd::seq_lib::group_filter_ensures;
    assert(a.take(6) =~= a);
    lemma_apply_step(content, proxy_url, 6);
    lemma_apply_step(once, proxy_url, 6);
    lemma_first_setting(content, proxy_url, 5);
    lemma_second_setting(content, proxy_url, 5);
    let c5 = apply_exports(content, a.take(5));
    let d5 = apply_exports(once, a.take(5));
    let h5 = head_after(content, 5);
    let h6 = head_after(content, 6);
    let e5 = exports_after(5, proxy_url);
    let r5 = exports_rotated(5, proxy_url);
    // the first reading: the lines ahead without exports of the last variable, then five exports
    assert forall|i: int| 0 <= i < e5.len() implies kp(#[trigger] e5[i]) by {
        lemma_export_line_of(i, 5, (4 - i) as nat, proxy_url);
    }
    lemma_filter_all(e5, kp);
    Seq::filter_distributes_over_add(h5, e5, kp);
    // the second reading
    let hm = h6.map_values(stripped(5));
    let kept6 = ls.filter(keep_before(6));
    assert forall|i: int| 0 <= i < hm.len() implies kp(#[trigger] hm[i]) by {
        if f0.len() == 0 {
            lemma_strip_n_empty(5);
            lemma_empty_not_export(proxy_var_names()[5]);
        } else {
            let y = kept6[i];
            assert(keep_before(6)(y));
            assert(!is_export_of(y, proxy_var_names()[5]));
            lemma_strip_n_keeps_export(y, proxy_var_names()[5], 6);
            lemma_strip_n_keeps_export(strip_cr_n(y, 6), proxy_var_names()[5], 5);
        }
    }
    lemma_filter_all(hm, kp);
    let rest = r5.drop_first();
    assert(r5 =~= seq![r5[0]] + rest);
    lemma_export_line_of(5, 5, 5, proxy_url);
    lemma_filter_single(r5[0], kp);
    assert(rest =~= e5);
    lemma_filter_all(rest, kp);
    Seq::filter_distributes_over_add(seq![r5[0]], rest, kp);
    Seq::filter_distributes_over_add(hm, r5, kp);
    // the lines ahead agree
    if f0.len() == 0 {
        lemma_empty_not_export(proxy_var_names()[5]);
        lemma_filter_all(h5, kp);
        lemma_strip_n_empty(5);
        assert(hm =~= h5);
    } else {
        lemma_filter_stripped(ls, 5, 5);
        assert(h5.filter(kp) == kept6.map_values(stripped(5)));
        assert forall|i: int| 0 <= i < kept6.len() implies strip_cr_n(strip_cr_n(#[trigger] kept6[i], 6), 5)
            == strip_cr_n(kept6[i], 5) by {
            let y = kept6[i];
            assert(kept6.contains(y));
            ls.lemma_filter_contains_rev(keep_before(6), y);
            let n = choose|n: int| 0 <= n < ls.len() && ls[n] == y;
            assert(keep_before(6)(y));
            assert(!is_proxy_export(ls[n]));
            lemma_strip_n_add(y, 6, 5);
            lemma_strip_n_stable(y, 5, 11);
        }
        assert(hm =~= h5.filter(kp));
    }
    assert(lines(c5).filter(kp) == lines(d5).filter(kp));
}

/// Exporting none of the six proxy variables is exporting no proxy variable.
proof fn lemma_keep_all_is_no_proxy_export()
    ensures
        keep_before(6) == kept_pred(LineRule::NoProxyExport),
{
    assert forall|l: Seq<char>| exports_none_before(l, 6) == !#[trigger] is_proxy_export(l) by {
        if exports_none_before(l, 6) {
            assert(!is_proxy_export(l));
        }
    }
    assert(keep_before(6) =~= kept_pred(LineRule::NoProxyExport));
}

proof fn lemma_filter_filter_implied<A>(s: Seq<A>, p: spec_fn(A) -> bool, q: spec_fn(A) -> bool)
    requires
        forall|x: A| #[trigger] q(x) ==> p(x),
    ensures
        s.filter(p).filter(q) == s.filter(q),
    decreases s.len(),
{
    if s.len() > 0 {
        let x = s.last();
        let s0 = s.drop_last();
        lemma_filter_filter_implied(s0, p, q);
        assert(s0.push(x) =~= s);
        s0.lemma_filter_push(x, p);
        s0.lemma_filter_push(x, q);
        if p(x) {
            s0.filter(p).lemma_filter_push(x, q);
        }
    } else {
        broadcast use vstd::seq_lib::group_filter_ensures;
        assert(s.filter(p) =~= s);
        assert(s.filter(q) =~= s);
        assert(s.filter(p).filter(q) =~= s);
    }
}

proof fn lemma_empty_not_export_any()
    ensures
        !is_proxy_export(Seq::empty()),
{
    assert forall|j: int| 0 <= j < 6 implies !is_export_of(Seq::empty(), #[trigger] proxy_var_names()[j]) by {
        lemma_empty_not_export(proxy_var_names()[j]);
    }
}

proof fn lemma_clear_after_set_one_line(content: Seq<char>, proxy_url: Seq<char>)
    requires
        !proxy_url.contains('\n'),
        forall|i: int| 0 <= i < lines(content).len() && !is_proxy_export(#[trigger] lines(content)[i])
            ==> cr_tail_at_most(lines(content)[i], 0),
    ensures
        kept_lines(apply_exports(content, proxy_assignments(proxy_url)), LineRule::NoProxyExport)
            == kept_lines(content, LineRule::NoProxyExport),
{
    let a = proxy_assignments(proxy_url);
    assert(a.take(6) =~= a);
    lemma_first_setting(content, proxy_url, 6);
    let ls = lines(content);
    let npe = kept_pred(LineRule::NoProxyExport);
    let kp0 = kept_pred(LineRule::NotExportOf(proxy_var_names()[0]));
    let f0 = ls.filter(kp0);
    let h6 = head_after(content, 6);
    let e6 = exports_after(6, proxy_url);
    let kept6 = ls.filter(keep_before(6));
    broadcast use vstd::seq_lib::group_filter_ensures;
    assert forall|i: int| 0 <= i < e6.len() implies !npe(#[trigger] e6[i]) by {
        lemma_export_line_of(i, i, (5 - i) as nat, proxy_url);
        assert(is_export_of(e6[i], proxy_var_names()[i]));
    }
    lemma_filter_none(e6, npe);
    Seq::filter_distributes_over_add(h6, e6, npe);
    lemma_keep_all_is_no_proxy_export();
    if f0.len() == 0 {
        lemma_empty_not_export_any();
        lemma_filter_all(h6, npe);
        assert forall|x: Seq<char>| #[trigger] npe(x) implies kp0(x) by {
            assert(!is_export_of(x, proxy_var_names()[0]));
        }
        lemma_filter_filter_implied(ls, kp0, npe);
        assert(f0 =~= Seq::<Seq<char>>::empty());
        assert(f0.filter(npe) =~= Seq::<Seq<char>>::empty());
        assert(join(h6, nl()) == Seq::<char>::empty()) by {
            assert(h6[0] == Seq::<char>::empty());
        }
    } else {
        assert forall|i: int| 0 <= i < kept6.len() implies strip_cr_n(#[trigger] kept6[i], 6) == kept6[i] by {
            let y = kept6[i];
            assert(kept6.contains(y));
            ls.lemma_filter_contains_rev(keep_before(6), y);
            let n = choose|n: int| 0 <= n < ls.len() && ls[n] == y;
            assert(keep_before(6)(y));
            assert(!is_proxy_export(ls[n]));
            lemma_strip_n_stable(y, 0, 6);
        }
        assert(h6 =~= kept6);
        assert forall|i: int| 0 <= i < h6.len() implies npe(#[trigger] h6[i]) by {
            assert(keep_before(6)(kept6[i]));
        }
        lemma_filter_all(h6, npe);
    }
}

/// The URL holds no newline but, perhaps, a last one.
pub open spec fn newline_only_at_end(u: Seq<char>) -> bool {
    forall|i: int| 0 <= i < u.len() - 1 ==> u[i] != '\n'
}

/// Reading a text back after a newline is appended: the same lines, the last
/// one without a trailing carriage return.
proof fn lemma_lines_push_nl(t: Seq<char>)
    requires
        t.len() > 0,
        t.last() != '\n',
    ensures
        lines(t).len() > 0,
        lines(t + nl()) == lines(t).update(lines(t).len() - 1, strip_cr(lines(t).last())),
{
    crate::text::lemma_split_nl_nonempty(t);
    let p = split_nl(t);
    let tn = t + nl();
    assert(tn.drop_last() =~= t);
    assert(tn.last() == '\n');
    assert(split_nl(tn) == p.push(Seq::<char>::empty()));
    assert(split_nl(tn).drop_last() =~= p);
    assert(lines(tn) =~= lines(t).update(lines(t).len() - 1, strip_cr(lines(t).last())));
}

/// Setting an export whose value ends in a newline reads back as setting the
/// value without it (and without a carriage return before it).
proof fn lemma_with_export_trailing_nl(x: Seq<char>, var: Seq<char>, v: Seq<char>)
    requires
        !(export_prefix(var) + v).contains('\n'),
        export_prefix(var).len() > 0,
        export_prefix(var).last() == '=',
    ensures
        lines(with_export(x, var, v + nl())) == lines(with_export(x, var, strip_cr(v))),
{
    let p = export_prefix(var);
    let w = strip_cr(v);
    let t = with_export(x, var, v);
    assert(with_export(x, var, v + nl()) =~= t + nl());
    assert((p + v)[(p + v).len() - 1] == (p + v).last());
    assert(!(p + w).contains('\n')) by {
        if (p + w).contains('\n') {
            let k = choose|k: int| 0 <= k < (p + w).len() && (p + w)[k] == '\n';
            assert((p + v)[k] == '\n');
        }
    }
    assert((p + w)[(p + w).len() - 1] == (p + w).last());
    assert(strip_cr(p + v) == p + w) by {
        if v.len() > 0 && v.last() == '\r' {
            assert((p + v).drop_last() =~= p + v.drop_last());
        } else if v.len() == 0 {
            assert(p + v =~= p);
        }
    }
    lemma_lines_with_export(x, var, v);
    lemma_lines_with_export(x, var, w);
    assert(t =~= kept_lines(x, LineRule::NotExportOf(var)) + nl() + (p + v));
    assert(t.last() == (p + v).last());
    lemma_lines_push_nl(t);
}

/// A setting's text depends on the lines of what it is applied to only.
proof fn lemma_with_export_lines(x: Seq<char>, y: Seq<char>, var: Seq<char>, value: Seq<char>)
    requires
        lines(x) == lines(y),
    ensures
        with_export(x, var, value) == with_export(y, var, value),
{
}

/// Setting a URL with a final newline gives what setting it without that
/// newline (and without a carriage return before it) gives.
proof fn lemma_apply_trailing_nl(content: Seq<char>, v: Seq<char>, k: int)
    requires
        0 <= k <= 6,
        !v.contains('\n'),
    ensures
        lines(apply_exports(content, proxy_assignments(v + nl()).take(k)))
            == lines(apply_exports(content, proxy_assignments(strip_cr(v)).take(k))),
        k == 6 ==> apply_exports(content, proxy_assignments(v + nl()).take(k))
            == apply_exports(content, proxy_assignments(strip_cr(v)).take(k)),
    decreases k,
{
    let u = v + nl();
    let w = strip_cr(v);
    let au = proxy_assignments(u);
    let aw = proxy_assignments(w);
    if k == 0 {
        assert(au.take(0) =~= Seq::<(Seq<char>, Seq<char>)>::empty());
        assert(aw.take(0) =~= Seq::<(Seq<char>, Seq<char>)>::empty());
    } else {
        lemma_apply_trailing_nl(content, v, k - 1);
        lemma_apply_step(content, u, k);
        lemma_apply_step(content, w, k);
        let xu = apply_exports(content, au.take(k - 1));
        let xw = apply_exports(content, aw.take(k - 1));
        let var = au[k - 1].0;
        assert(aw[k - 1].0 == var);
        lemma_with_export_lines(xu, xw, var, au[k - 1].1);
        if k - 1 < 4 {
            reveal_strlit("export ");
            reveal_strlit("=");
            reveal_strlit("HTTP_PROXY");
            reveal_strlit("http_proxy");
            reveal_strlit("HTTPS_PROXY");
            reveal_strlit("https_proxy");
            let p = export_prefix(var);
            assert(p[p.len() - 1] == '=');
            assert(!(p + v).contains('\n')) by {
                if (p + v).contains('\n') {
                    let i = choose|i: int| 0 <= i < (p + v).len() && (p + v)[i] == '\n';
                    if i < p.len() {
                        assert((p + v)[i] == p[i]);
                        if i >= 7 && i < 7 + var.len() {
                            assert(p[i] == var[i - 7]);
                        }
                    } else {
                        assert((p + v)[i] == v[i - p.len()]);
                    }
                }
            }
            lemma_with_export_trailing_nl(xw, var, v);
        } else {
            assert(aw[k - 1].1 == au[k - 1].1);
        }
    }
}

/// Setting the proxy twice leaves a shell start-up file as setting it once
/// does, for a URL with no newline but perhaps a last one, and a file whose
/// lines other than proxy exports end in at most five carriage returns.
pub proof fn lemma_set_proxy_twice(content: Seq<char>, proxy_url: Seq<char>)
    requires
        newline_only_at_end(proxy_url),
        forall|i: int| 0 <= i < lines(content).len() && !is_proxy_export(#[trigger] lines(content)[i])
            ==> cr_tail_at_most(lines(content)[i], 5),
    ensures
        apply_exports(apply_exports(content, proxy_assignments(proxy_url)), proxy_assignments(proxy_url))
            == apply_exports(content, proxy_assignments(proxy_url)),
{
    let u = proxy_url;
    if u.len() > 0 && u.last() == '\n' {
        let v = u.drop_last();
        assert(u =~= v + nl());
        assert(!v.contains('\n')) by {
            if v.contains('\n') {
                let i = choose|i: int| 0 <= i < v.len() && v[i] == '\n';
                assert(u[i] == v[i]);
            }
        }
        let w = strip_cr(v);
        assert(!w.contains('\n')) by {
            if w.contains('\n') {
                let i = choose|i: int| 0 <= i < w.len() && w[i] == '\n';
                assert(v[i] == w[i]);
            }
        }
        let a = proxy_assignments(u);
        assert(a.take(6) =~= a);
        assert(proxy_assignments(w).take(6) =~= proxy_assignments(w));
        lemma_apply_trailing_nl(content, v, 6);
        let once = apply_exports(content, a);
        lemma_apply_trailing_nl(once, v, 6);
        lemma_set_proxy_twice_one_line(content, w);
    } else {
        assert(!u.contains('\n')) by {
            if u.contains('\n') {
                let i = choose|i: int| 0 <= i < u.len() && u[i] == '\n';
                if i == u.len() - 1 {
                    assert(u.last() == u[i]);
                }
            }
        }
        lemma_set_proxy_twice_one_line(content, u);
    }
}

/// Clearing the proxy from a shell start-up file after setting it gives what
/// clearing alone gives, for a URL with no newline but perhaps a last one, and
/// a file whose lines other than proxy exports do not end in a carriage return.
pub proof fn lemma_clear_after_set_is_clear(content: Seq<char>, proxy_url: Seq<char>)
    requires
        newline_only_at_end(proxy_url),
        forall|i: int| 0 <= i < lines(content).len() && !is_proxy_export(#[trigger] lines(content)[i])
            ==> cr_tail_at_most(lines(content)[i], 0),
    ensures
        kept_lines(apply_exports(content, proxy_assignments(proxy_url)), LineRule::NoProxyExport)
            == kept_lines(content, LineRule::NoProxyExport),
{
    let u = proxy_url;
    if u.len() > 0 && u.last() == '\n' {
        let v = u.drop_last();
        assert(u =~= v + nl());
        assert(!v.contains('\n')) by {
            if v.contains('\n') {
                let i = choose|i: int| 0 <= i < v.len() && v[i] == '\n';
                assert(u[i] == v[i]);
            }
        }
        let w = strip_cr(v);
        assert(!w.contains('\n')) by {
            if w.contains('\n') {
                let i = choose|i: int| 0 <= i < w.len() && w[i] == '\n';
                assert(v[i] == w[i]);
            }
        }
        assert(proxy_assignments(u).take(6) =~= proxy_assignments(u));
        assert(proxy_assignments(w).take(6) =~= proxy_assignments(w));
        lemma_apply_trailing_nl(content, v, 6);
        lemma_clear_after_set_one_line(content, w);
    } else {
        assert(!u.contains('\n')) by {
            if u.contains('\n') {
                let i = choose|i: int| 0 <= i < u.len() && u[i] == '\n';
                if i == u.len() - 1 {
                    assert(u.last() == u[i]);
                }
            }
        }
        lemma_clear_after_set_one_line(content, u);
    }
}

/// `content` with each variable restored in turn, as `restored_file_content`
/// restores one.
pub open spec fn restore_all(content: Seq<char>, vars: Seq<(Seq<char>, Seq<char>)>) -> Seq<char>
    decreases vars.len(),
{
    if vars.len() == 0 {
        content
    } else {
        restore_all(content, vars.drop_last()) + nl() + export_prefix(vars.last().0) + vars.last().1
    }
}

/// The export lines of the variables, in order.
pub open spec fn restored_lines(vars: Seq<(Seq<char>, Seq<char>)>) -> Seq<Seq<char>> {
    vars.map_values(|p: (Seq<char>, Seq<char>)| export_prefix(p.0) + p.1)
}

proof fn lemma_export_text_line(name: Seq<char>, value: Seq<char>)
    requires
        !name.contains('\n'),
        !value.contains('\n'),
    ensures
        !(export_prefix(name) + value).contains('\n'),
        (export_prefix(name) + value).len() > 0,
        (export_prefix(name) + value).last() != '\n',
        (value.len() == 0 || value.last() != '\r') ==> strip_cr(export_prefix(name) + value)
            == export_prefix(name) + value,
{
    reveal_strlit("export ");
    reveal_strlit("=");
    let ex = seq!['e', 'x', 'p', 'o', 'r', 't', ' '];
    assert("export "@ =~= ex);
    assert("="@ =~= seq!['=']);
    let line = export_prefix(name) + value;
    assert(line =~= ex + name + seq!['='] + value);
    assert(!line.contains('\n')) by {
        if line.contains('\n') {
            let k = choose|k: int| 0 <= k < line.len() && line[k] == '\n';
            if k < 7 {
                assert(line[k] == ex[k]);
            } else if k < 7 + name.len() {
                assert(line[k] == name[k - 7]);
            } else if k == 7 + name.len() {
                assert(line[k] == '=');
            } else {
                assert(line[k] == value[k - 8 - name.len()]);
            }
        }
    }
    assert(line[line.len() - 1] == line.last());
    if value.len() == 0 {
        assert(line.last() == '=');
    } else {
        assert(line.last() == value.last());
    }
}

/// Appending a line after a newline reads back as one more line.
proof fn lemma_lines_append_line(x: Seq<char>, line: Seq<char>)
    requires
        !line.contains('\n'),
        line.len() > 0,
        line.last() != '\n',
    ensures
        lines(x + nl() + line) == lines(x + nl()).push(line),
{
    let xn = x + nl();
    assert(xn.drop_last() =~= x);
    assert(xn.last() == '\n');
    crate::text::lemma_split_nl_nonempty(x);
    assert(split_nl(xn) == split_nl(x).push(Seq::<char>::empty()));
    crate::text::lemma_split_nl_append(xn, line);
    assert(Seq::<char>::empty() + line =~= line);
    let r = xn + line;
    assert(r.last() == line.last());
    assert(split_nl(r) =~= split_nl(x).push(line));
    assert(split_nl(r).drop_last() =~= split_nl(x));
    assert(split_nl(xn).drop_last() =~= split_nl(x));
    assert(lines(r) =~= lines(xn).push(line));
}

/// Restoring several variables one after another into one file leaves their
/// export lines `export {name}={value}`, in order, as the file's last lines,
/// provided no name or value holds a newline and no value but the last ends
/// in a carriage return.
pub proof fn lemma_restore_all_reads_back(content: Seq<char>, vars: Seq<(Seq<char>, Seq<char>)>)
    requires
        forall|i: int| 0 <= i < vars.len() ==> !(#[trigger] vars[i]).0.contains('\n') && !vars[i].1.contains('\n'),
        forall|i: int| 0 <= i < vars.len() - 1 ==> (#[trigger] vars[i]).1.len() == 0 || vars[i].1.last() != '\r',
    ensures
        lines(restore_all(content, vars)).len() >= vars.len(),
        lines(restore_all(content, vars)).skip(lines(restore_all(content, vars)).len() - vars.len())
            == restored_lines(vars),
        forall|i: int| 0 <= i < vars.len() ==> lines(restore_all(content, vars)).contains(
            #[trigger] restored_lines(vars)[i],
        ),
    decreases vars.len(),
{
    let n = vars.len() as int;
    let ls = lines(restore_all(content, vars));
    if n == 0 {
        assert(ls.skip(ls.len() as int) =~= restored_lines(vars));
    } else {
        let d = vars.drop_last();
        assert forall|i: int| 0 <= i < d.len() implies !(#[trigger] d[i]).0.contains('\n') && !d[i].1.contains('\n') by {
            assert(d[i] == vars[i]);
        }
        assert forall|i: int| 0 <= i < d.len() - 1 implies (#[trigger] d[i]).1.len() == 0 || d[i].1.last() != '\r' by {
            assert(d[i] == vars[i]);
        }
        lemma_restore_all_reads_back(content, d);
        let x = restore_all(content, d);
        let last = vars[n - 1];
        assert(vars.last() == last);
        let line = export_prefix(last.0) + last.1;
        lemma_export_text_line(last.0, last.1);
        assert(restore_all(content, vars) =~= x + nl() + line);
        lemma_lines_append_line(x, line);
        let lx = lines(x);
        if n > 1 {
            let prev = vars[n - 2];
            assert(d.last() == prev);
            let pl = export_prefix(prev.0) + prev.1;
            lemma_export_text_line(prev.0, prev.1);
            assert(x == restore_all(content, d.drop_last()) + nl() + export_prefix(d.last().0) + d.last().1);
            assert(x =~= restore_all(content, d.drop_last()) + nl() + pl);
            assert(x.last() == pl.last());
            assert(lx.skip(lx.len() - (n - 1)) == restored_lines(d));
            assert(lx.last() == lx.skip(lx.len() - (n - 1))[n - 2]);
            assert(restored_lines(d)[n - 2] == pl);
            lemma_lines_push_nl(x);
            assert(lines(x + nl()) =~= lx);
        } else {
            assert(restored_lines(d) =~= Seq::<Seq<char>>::empty());
        }
        let lxn = lines(x + nl());
        assert(ls == lxn.push(line));
        if n > 1 {
            assert(ls.skip(ls.len() - n) =~= lx.skip(lx.len() - (n - 1)).push(line));
        } else {
            assert(ls.skip(ls.len() - n) =~= seq![line]);
        }
        assert(restored_lines(vars) =~= restored_lines(d).push(line));
        assert forall|i: int| 0 <= i < n implies ls.contains(#[trigger] restored_lines(vars)[i]) by {
            assert(ls[ls.len() - n + i] == ls.skip(ls.len() - n)[i]);
        }
    }
}

} // verus!
