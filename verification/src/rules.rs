//! The abuse rule set: which request paths mark a client as scanning or
//! probing. Matching is ASCII-case-insensitive — every rule is stated over
//! the lowercased bytes of the path — and anchored rules only fire at the
//! start of the path. A path is abusive as soon as any one rule matches.

use vstd::prelude::*;

verus! {

use crate::scan::{
    bytes_eq, contains_lit, contains_pat, digit_end, digit_end_exec, ext_end, ext_end_exec,
    is_word, is_ws, lit_at, lit_at_exec, lower_bytes, pat, spec_is_word, spec_is_ws, to_lower,
};
use vstd::string::StringSliceAdditionalSpecFns;

/// A word boundary sits at `k`: exactly one side is a word character.
pub open spec fn wb(s: Seq<u8>, k: int) -> bool {
    (0 <= k - 1 < s.len() && spec_is_word(s[k - 1])) != (0 <= k < s.len() && spec_is_word(s[k]))
}

fn wb_exec(s: &[u8], k: usize) -> (r: bool)
    requires
        k <= s@.len(),
    ensures
        r == wb(s@, k as int),
{
    let pw = k > 0 && is_word(s[k - 1]);
    let nw = k < s.len() && is_word(s[k]);
    pw != nw
}

/// The boundary a probe rule asks for after its literal: a word boundary,
/// a path separator or a query separator.
pub open spec fn b3(s: Seq<u8>, k: int) -> bool {
    wb(s, k) || (0 <= k < s.len() && (s[k] == 47 || s[k] == 63))
}

fn b3_exec(s: &[u8], k: usize) -> (r: bool)
    requires
        k <= s@.len(),
    ensures
        r == b3(s@, k as int),
{
    wb_exec(s, k) || (k < s.len() && (s[k] == 47 || s[k] == 63))
}

/// The boundary an extension rule asks for: also satisfied at the end of
/// the path.
pub open spec fn b4(s: Seq<u8>, k: int) -> bool {
    b3(s, k) || k == s.len()
}

fn b4_exec(s: &[u8], k: usize) -> (r: bool)
    requires
        k <= s@.len(),
    ensures
        r == b4(s@, k as int),
{
    b3_exec(s, k) || k == s.len()
}

/// The boundary the repository-probe rule asks for: a word boundary, a
/// separator, or the end.
pub open spec fn bwe(s: Seq<u8>, k: int) -> bool {
    wb(s, k) || (0 <= k < s.len() && s[k] == 47) || k == s.len()
}

fn bwe_exec(s: &[u8], k: usize) -> (r: bool)
    requires
        k <= s@.len(),
    ensures
        r == bwe(s@, k as int),
{
    wb_exec(s, k) || (k < s.len() && s[k] == 47) || k == s.len()
}

/// An environment-file probe starts at `i`: `/.env` followed by a boundary.
pub open spec fn env_probe_at(s: Seq<u8>, i: int) -> bool {
    lit_at(s, i, pat("/.env")) && b3(s, i + pat("/.env").len())
}

pub open spec fn env_probe(s: Seq<u8>) -> bool {
    exists|i: int| env_probe_at(s, i)
}

fn env_probe_at_exec(s: &[u8], i: usize) -> (r: bool)
    ensures
        r == env_probe_at(s@, i as int),
{
    if lit_at_exec(s, i, "/.env") {
        let n = s.len();
        assert(i + pat("/.env").len() <= n);
        b3_exec(s, i + "/.env".len())
    } else {
        false
    }
}

/// A repository probe starts at `i`: `/.git`, alone or with one of its
/// companion file names, followed by a boundary.
pub open spec fn git_probe_at(s: Seq<u8>, i: int) -> bool {
    let j = i + pat("/.git").len();
    lit_at(s, i, pat("/.git")) && (bwe(s, j) || (lit_at(s, j, pat("ignore")) && bwe(
        s,
        j + pat("ignore").len(),
    )) || (lit_at(s, j, pat("config")) && bwe(s, j + pat("config").len())) || (lit_at(
        s,
        j,
        pat("modules"),
    ) && bwe(s, j + pat("modules").len())))
}

pub open spec fn git_probe(s: Seq<u8>) -> bool {
    exists|i: int| git_probe_at(s, i)
}

fn git_probe_at_exec(s: &[u8], i: usize) -> (r: bool)
    ensures
        r == git_probe_at(s@, i as int),
{
    if !lit_at_exec(s, i, "/.git") {
        return false;
    }
    let n = s.len();
    assert(i + pat("/.git").len() <= n);
    let j = i + "/.git".len();
    if bwe_exec(s, j) {
        return true;
    }
    if lit_at_exec(s, j, "ignore") {
        assert(j + pat("ignore").len() <= n);
        if bwe_exec(s, j + "ignore".len()) {
            return true;
        }
    }
    if lit_at_exec(s, j, "config") {
        assert(j + pat("config").len() <= n);
        if bwe_exec(s, j + "config".len()) {
            return true;
        }
    }
    if lit_at_exec(s, j, "modules") {
        assert(j + pat("modules").len() <= n);
        if bwe_exec(s, j + "modules".len()) {
            return true;
        }
    }
    false
}

/// A suspicious file extension sits at `j` (right after a dot), closed by
/// a boundary.
pub open spec fn ext_word_at(s: Seq<u8>, j: int, w: Seq<u8>) -> bool {
    lit_at(s, j, w) && b4(s, j + w.len())
}

/// As `ext_word_at`, but the extension may carry trailing digits.
pub open spec fn ext_word_digits_at(s: Seq<u8>, j: int, w: Seq<u8>) -> bool {
    lit_at(s, j, w) && b4(s, digit_end(s, j + w.len()))
}

fn ext_word_at_exec(s: &[u8], j: usize, w: &str) -> (r: bool)
    ensures
        r == ext_word_at(s@, j as int, pat(w)),
{
    if lit_at_exec(s, j, w) {
        let n = s.len();
        assert(j + pat(w).len() <= n);
        b4_exec(s, j + w.len())
    } else {
        false
    }
}

fn ext_word_digits_at_exec(s: &[u8], j: usize, w: &str) -> (r: bool)
    ensures
        r == ext_word_digits_at(s@, j as int, pat(w)),
{
    if lit_at_exec(s, j, w) {
        let n = s.len();
        assert(j + pat(w).len() <= n);
        let e = digit_end_exec(s, j + w.len());
        b4_exec(s, e)
    } else {
        false
    }
}

/// A dot at `i` starts one of the suspicious extensions.
pub open spec fn ext_probe_at(s: Seq<u8>, i: int) -> bool {
    let j = i + 1;
    &&& 0 <= i < s.len()
    &&& s[i] == 46
    &&& {
        ||| ext_word_digits_at(s, j, pat("php"))
        ||| ext_word_digits_at(s, j, pat("asp"))
        ||| ext_word_digits_at(s, j, pat("jsp"))
        ||| ext_word_at(s, j, pat("env"))
        ||| ext_word_at(s, j, pat("zip"))
        ||| ext_word_at(s, j, pat("tar"))
        ||| ext_word_at(s, j, pat("gz"))
        ||| ext_word_at(s, j, pat("tgz"))
        ||| ext_word_at(s, j, pat("rar"))
        ||| ext_word_at(s, j, pat("bak"))
        ||| ext_word_at(s, j, pat("jar"))
        ||| ext_word_at(s, j, pat("old"))
        ||| ext_word_at(s, j, pat("save"))
        ||| ext_word_at(s, j, pat("example"))
        ||| ext_word_at(s, j, pat("db"))
        ||| ext_word_at(s, j, pat("sqlite"))
        ||| ext_word_at(s, j, pat("sqlite3"))
        ||| ext_word_at(s, j, pat("ini"))
        ||| ext_word_at(s, j, pat("yaml"))
        ||| ext_word_at(s, j, pat("yml"))
        ||| ext_word_at(s, j, pat("cfg"))
        ||| ext_word_at(s, j, pat("conf"))
        ||| ext_word_at(s, j, pat("rsp"))
        ||| ext_word_at(s, j, pat("aspx"))
        ||| ext_word_at(s, j, pat("cgi"))
        ||| ext_word_at(s, j, pat("xml"))
    }
}

pub open spec fn ext_probe(s: Seq<u8>) -> bool {
    exists|i: int| ext_probe_at(s, i)
}

fn ext_probe_at_exec(s: &[u8], i: usize) -> (r: bool)
    ensures
        r == ext_probe_at(s@, i as int),
{
    if !(i < s.len() && s[i] == 46) {
        return false;
    }
    let j = i + 1;
    ext_word_digits_at_exec(s, j, "php") || ext_word_digits_at_exec(s, j, "asp")
        || ext_word_digits_at_exec(s, j, "jsp") || ext_word_at_exec(s, j, "env")
        || ext_word_at_exec(s, j, "zip") || ext_word_at_exec(s, j, "tar") || ext_word_at_exec(
        s,
        j,
        "gz",
    ) || ext_word_at_exec(s, j, "tgz") || ext_word_at_exec(s, j, "rar") || ext_word_at_exec(
        s,
        j,
        "bak",
    ) || ext_word_at_exec(s, j, "jar") || ext_word_at_exec(s, j, "old") || ext_word_at_exec(
        s,
        j,
        "save",
    ) || ext_word_at_exec(s, j, "example") || ext_word_at_exec(s, j, "db") || ext_word_at_exec(
        s,
        j,
        "sqlite",
    ) || ext_word_at_exec(s, j, "sqlite3") || ext_word_at_exec(s, j, "ini") || ext_word_at_exec(
        s,
        j,
        "yaml",
    ) || ext_word_at_exec(s, j, "yml") || ext_word_at_exec(s, j, "cfg") || ext_word_at_exec(
        s,
        j,
        "conf",
    ) || ext_word_at_exec(s, j, "rsp") || ext_word_at_exec(s, j, "aspx") || ext_word_at_exec(
        s,
        j,
        "cgi",
    ) || ext_word_at_exec(s, j, "xml")
}

/// A dot at `i` starts one of the extensions the configuration-directory
/// rule looks for.
pub open spec fn cfg_ext_at(s: Seq<u8>, i: int) -> bool {
    let j = i + 1;
    &&& 0 <= i < s.len()
    &&& s[i] == 46
    &&& {
        ||| ext_word_at(s, j, pat("json"))
        ||| ext_word_at(s, j, pat("env"))
        ||| ext_word_at(s, j, pat("yaml"))
        ||| ext_word_at(s, j, pat("yml"))
        ||| ext_word_at(s, j, pat("ini"))
        ||| ext_word_at(s, j, pat("cfg"))
        ||| ext_word_at(s, j, pat("conf"))
    }
}

fn cfg_ext_at_exec(s: &[u8], i: usize) -> (r: bool)
    ensures
        r == cfg_ext_at(s@, i as int),
{
    if !(i < s.len() && s[i] == 46) {
        return false;
    }
    let j = i + 1;
    ext_word_at_exec(s, j, "json") || ext_word_at_exec(s, j, "env") || ext_word_at_exec(
        s,
        j,
        "yaml",
    ) || ext_word_at_exec(s, j, "yml") || ext_word_at_exec(s, j, "ini") || ext_word_at_exec(
        s,
        j,
        "cfg",
    ) || ext_word_at_exec(s, j, "conf")
}

/// Configuration files under a handful of private source directories.
pub open spec fn cfg_dir_probe(s: Seq<u8>) -> bool {
    (lit_at(s, 0, pat("/private/")) || lit_at(s, 0, pat("/prevlaravel/")) || lit_at(
        s,
        0,
        pat("/src/"),
    )) && (exists|i: int| cfg_ext_at(s, i))
}

/// The path starts with `p` as a whole directory name.
pub open spec fn dir_prefix(s: Seq<u8>, p: Seq<u8>) -> bool {
    lit_at(s, 0, p) && (s.len() == p.len() || s[p.len() as int] == 47)
}

fn dir_prefix_exec(s: &[u8], p: &str) -> (r: bool)
    ensures
        r == dir_prefix(s@, pat(p)),
{
    if lit_at_exec(s, 0, p) {
        let e = p.len();
        e == s.len() || s[e] == 47
    } else {
        false
    }
}

/// The path starts with `p` closed by a word boundary.
pub open spec fn wb_prefix(s: Seq<u8>, p: Seq<u8>) -> bool {
    lit_at(s, 0, p) && wb(s, p.len() as int)
}

fn wb_prefix_exec(s: &[u8], p: &str) -> (r: bool)
    ensures
        r == wb_prefix(s@, pat(p)),
{
    if lit_at_exec(s, 0, p) {
        let n = s.len();
        assert(pat(p).len() <= n);
        wb_exec(s, p.len())
    } else {
        false
    }
}

/// A transfer-tool configuration file at the top level.
pub open spec fn sftp_exact(s: Seq<u8>) -> bool {
    s == pat("/sftp-config.json") || s == pat("/sftp.json")
}

/// The same file name below at least one directory level.
pub open spec fn sftp_deep_one(s: Seq<u8>, p: Seq<u8>) -> bool {
    let k = s.len() - p.len();
    s.len() >= p.len() + 2 && s[0] == 47 && lit_at(s, k, p) && spec_is_word(s[k - 1])
}

fn sftp_deep_one_exec(s: &[u8], p: &str) -> (r: bool)
    ensures
        r == sftp_deep_one(s@, pat(p)),
{
    let n = s.len();
    let pl = p.len();
    if n >= 2 && pl <= n - 2 && s[0] == 47 {
        let k = n - pl;
        lit_at_exec(s, k, p) && is_word(s[k - 1])
    } else {
        false
    }
}

pub open spec fn sftp_probe(s: Seq<u8>) -> bool {
    sftp_exact(s) || sftp_deep_one(s, pat("/sftp-config.json")) || sftp_deep_one(
        s,
        pat("/sftp.json"),
    )
}

/// A publishing-platform administration path: `/wp-` followed by at least
/// one more name character.
pub open spec fn wp_probe(s: Seq<u8>) -> bool {
    let e = pat("/wp-").len() as int;
    lit_at(s, 0, pat("/wp-")) && e < s.len() && s[e] != 47 && !spec_is_ws(s[e])
}

fn wp_probe_exec(s: &[u8]) -> (r: bool)
    ensures
        r == wp_probe(s@),
{
    if lit_at_exec(s, 0, "/wp-") {
        let e = "/wp-".len();
        e < s.len() && s[e] != 47 && !is_ws(s[e])
    } else {
        false
    }
}

/// A compiler-configuration file, optionally with one qualifier between
/// the name and its `.json` ending.
pub open spec fn ts_json_at(s: Seq<u8>, j: int) -> bool {
    lit_at(s, j, pat(".json")) && b4(s, j + pat(".json").len())
}

pub open spec fn tsconfig_probe(s: Seq<u8>) -> bool {
    let j = pat("/tsconfig").len() as int;
    lit_at(s, 0, pat("/tsconfig")) && (ts_json_at(s, j) || (0 <= j < s.len() && s[j] == 46
        && ext_end(s, j + 1) > j + 1 && ts_json_at(s, ext_end(s, j + 1))))
}

fn ts_json_at_exec(s: &[u8], j: usize) -> (r: bool)
    ensures
        r == ts_json_at(s@, j as int),
{
    if lit_at_exec(s, j, ".json") {
        let n = s.len();
        assert(j + pat(".json").len() <= n);
        b4_exec(s, j + ".json".len())
    } else {
        false
    }
}

fn tsconfig_probe_exec(s: &[u8]) -> (r: bool)
    ensures
        r == tsconfig_probe(s@),
{
    if !lit_at_exec(s, 0, "/tsconfig") {
        return false;
    }
    let n = s.len();
    assert(pat("/tsconfig").len() <= n);
    let j = "/tsconfig".len();
    if ts_json_at_exec(s, j) {
        return true;
    }
    if j < s.len() && s[j] == 46 {
        let e = ext_end_exec(s, j + 1);
        if e > j + 1 {
            return ts_json_at_exec(s, e);
        }
    }
    false
}

/// All the rules together, over the lowercased path.
pub open spec fn abusive_lower(s: Seq<u8>) -> bool {
    ||| env_probe(s)
    ||| git_probe(s)
    ||| ext_probe(s)
    ||| contains_pat(s, pat("../"))
    ||| contains_pat(s, pat("?xdebug_session_start="))
    ||| wb_prefix(s, pat("/.config"))
    ||| wb_prefix(s, pat("/config.json"))
    ||| wb_prefix(s, pat("/config.xml"))
    ||| wb_prefix(s, pat("/web.xml"))
    ||| dir_prefix(s, pat("/actuator"))
    ||| dir_prefix(s, pat("/phpmyadmin"))
    ||| dir_prefix(s, pat("/wordpress"))
    ||| dir_prefix(s, pat("/telescope"))
    ||| dir_prefix(s, pat("/console"))
    ||| dir_prefix(s, pat("/geoserver"))
    ||| dir_prefix(s, pat("/service/api-docs"))
    ||| dir_prefix(s, pat("/goform"))
    ||| dir_prefix(s, pat("/_profiler"))
    ||| dir_prefix(s, pat("/_ignition"))
    ||| dir_prefix(s, pat("/cgi-bin"))
    ||| dir_prefix(s, pat("/env"))
    ||| dir_prefix(s, pat("/php"))
    ||| dir_prefix(s, pat("/cgi"))
    ||| dir_prefix(s, pat("/shell"))
    ||| dir_prefix(s, pat("/config"))
    ||| dir_prefix(s, pat("/backup"))
    ||| dir_prefix(s, pat("/backups"))
    ||| dir_prefix(s, pat("/.aws"))
    ||| dir_prefix(s, pat("/.docker"))
    ||| dir_prefix(s, pat("/.envrc"))
    ||| dir_prefix(s, pat("/.envs"))
    ||| dir_prefix(s, pat("/.local"))
    ||| dir_prefix(s, pat("/.production"))
    ||| dir_prefix(s, pat("/.remote"))
    ||| dir_prefix(s, pat("/.ssh"))
    ||| dir_prefix(s, pat("/.vscode"))
    ||| lit_at(s, 0, pat("/solr"))
    ||| lit_at(s, 0, pat("/shell?"))
    ||| lit_at(s, 0, pat("/query?"))
    ||| wp_probe(s)
    ||| sftp_probe(s)
    ||| tsconfig_probe(s)
    ||| cfg_dir_probe(s)
}

/// What the rule set means on a raw path: the rules, on its lowercase
/// form.
pub open spec fn spec_is_bad_apache(b: Seq<u8>) -> bool {
    abusive_lower(lower_bytes(b))
}

fn scan_env(s: &[u8]) -> (r: bool)
    ensures
        r == env_probe(s@),
{
    let mut i: usize = 0;
    loop
        invariant
            i <= s@.len(),
            forall|j: int| 0 <= j < i ==> !env_probe_at(s@, j),
        decreases s@.len() - i,
    {
        if env_probe_at_exec(s, i) {
            return true;
        }
        if i == s.len() {
            assert(forall|j: int| j > s@.len() ==> !env_probe_at(s@, j));
            assert(forall|j: int| j < 0 ==> !env_probe_at(s@, j));
            return false;
        }
        i = i + 1;
    }
}

fn scan_git(s: &[u8]) -> (r: bool)
    ensures
        r == git_probe(s@),
{
    let mut i: usize = 0;
    loop
        invariant
            i <= s@.len(),
            forall|j: int| 0 <= j < i ==> !git_probe_at(s@, j),
        decreases s@.len() - i,
    {
        if git_probe_at_exec(s, i) {
            return true;
        }
        if i == s.len() {
            assert(forall|j: int| j > s@.len() ==> !git_probe_at(s@, j));
            assert(forall|j: int| j < 0 ==> !git_probe_at(s@, j));
            return false;
        }
        i = i + 1;
    }
}

fn scan_ext(s: &[u8]) -> (r: bool)
    ensures
        r == ext_probe(s@),
{
    let mut i: usize = 0;
    loop
        invariant
            i <= s@.len(),
            forall|j: int| 0 <= j < i ==> !ext_probe_at(s@, j),
        decreases s@.len() - i,
    {
        if ext_probe_at_exec(s, i) {
            return true;
        }
        if i == s.len() {
            assert(forall|j: int| j >= s@.len() ==> !ext_probe_at(s@, j));
            assert(forall|j: int| j < 0 ==> !ext_probe_at(s@, j));
            return false;
        }
        i = i + 1;
    }
}

fn scan_cfg_ext(s: &[u8]) -> (r: bool)
    ensures
        r == (exists|i: int| cfg_ext_at(s@, i)),
{
    let mut i: usize = 0;
    loop
        invariant
            i <= s@.len(),
            forall|j: int| 0 <= j < i ==> !cfg_ext_at(s@, j),
        decreases s@.len() - i,
    {
        if cfg_ext_at_exec(s, i) {
            return true;
        }
        if i == s.len() {
            assert(forall|j: int| j >= s@.len() ==> !cfg_ext_at(s@, j));
            assert(forall|j: int| j < 0 ==> !cfg_ext_at(s@, j));
            return false;
        }
        i = i + 1;
    }
}

/// Does the request path bear any scanning or exploitation signature?
pub fn is_bad_apache(path: &str) -> (r: bool)
    ensures
        r == spec_is_bad_apache(path.spec_bytes()),
{
    let bytes = path.as_bytes();
    let low_v = to_lower(bytes);
    let s = low_v.as_slice();
    scan_env(s) || scan_git(s) || scan_ext(s) || contains_lit(s, "../") || contains_lit(
        s,
        "?xdebug_session_start=",
    ) || wb_prefix_exec(s, "/.config") || wb_prefix_exec(s, "/config.json") || wb_prefix_exec(
        s,
        "/config.xml",
    ) || wb_prefix_exec(s, "/web.xml") || dir_prefix_exec(s, "/actuator") || dir_prefix_exec(
        s,
        "/phpmyadmin",
    ) || dir_prefix_exec(s, "/wordpress") || dir_prefix_exec(s, "/telescope") || dir_prefix_exec(
        s,
        "/console",
    ) || dir_prefix_exec(s, "/geoserver") || dir_prefix_exec(s, "/service/api-docs")
        || dir_prefix_exec(s, "/goform") || dir_prefix_exec(s, "/_profiler") || dir_prefix_exec(
        s,
        "/_ignition",
    ) || dir_prefix_exec(s, "/cgi-bin") || dir_prefix_exec(s, "/env") || dir_prefix_exec(s, "/php")
        || dir_prefix_exec(s, "/cgi") || dir_prefix_exec(s, "/shell") || dir_prefix_exec(
        s,
        "/config",
    ) || dir_prefix_exec(s, "/backup") || dir_prefix_exec(s, "/backups") || dir_prefix_exec(
        s,
        "/.aws",
    ) || dir_prefix_exec(s, "/.docker") || dir_prefix_exec(s, "/.envrc") || dir_prefix_exec(
        s,
        "/.envs",
    ) || dir_prefix_exec(s, "/.local") || dir_prefix_exec(s, "/.production") || dir_prefix_exec(
        s,
        "/.remote",
    ) || dir_prefix_exec(s, "/.ssh") || dir_prefix_exec(s, "/.vscode") || lit_at_exec(s, 0, "/solr")
        || lit_at_exec(s, 0, "/shell?") || lit_at_exec(s, 0, "/query?") || wp_probe_exec(s) || (
    bytes_eq(s, "/sftp-config.json".as_bytes()) || bytes_eq(s, "/sftp.json".as_bytes())
        || sftp_deep_one_exec(s, "/sftp-config.json") || sftp_deep_one_exec(s, "/sftp.json"))
        || tsconfig_probe_exec(s) || ((lit_at_exec(s, 0, "/private/") || lit_at_exec(
        s,
        0,
        "/prevlaravel/",
    ) || lit_at_exec(s, 0, "/src/")) && scan_cfg_ext(s))
}

/// What an abusive authentication line contains: one of the two attack
/// signals, verbatim.
pub open spec fn spec_is_bad_ssh(b: Seq<u8>) -> bool {
    contains_pat(b, pat("Failed password")) || contains_pat(b, pat("Invalid user"))
}

/// Does the authentication message carry an attack signal?
pub fn is_bad_ssh(msg: &str) -> (r: bool)
    ensures
        r == spec_is_bad_ssh(msg.spec_bytes()),
{
    let bytes = msg.as_bytes();
    contains_lit(bytes, "Failed password") || contains_lit(bytes, "Invalid user")
}

} // verus!
