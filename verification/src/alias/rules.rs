//! `_alias_rules.toml`: naming a whole folder's worth of assets with one line.
//!
//! A folder rule is an alias template and a set of include patterns, applied to every file in
//! the directory it sits in. A rule inherits into subdirectories and the nearest one wins,
//! wholesale.
//!
//! Paths here are relative to the tree's root, `/` separated, with no empty, `.` or `..`
//! components.

use crate::text::{chars_of, eq_ignore_ascii_case, eq_ignoring_ascii_case, str_eq, string_of};
use vstd::prelude::*;

verus! {

/// The file that carries a folder rule, in the spelling everything should be written in.
pub const RULES_FILE: &'static str = "_alias_rules.toml";

/// True for a file name that carries a folder rule, in any case.
pub fn is_rules_file(file_name: &str) -> (out: bool)
    ensures
        out == eq_ignoring_ascii_case(file_name@, RULES_FILE@),
{
    eq_ignore_ascii_case(file_name, RULES_FILE)
}

/// Why a rule could not be compiled.
#[derive(Debug, Clone, PartialEq, Eq)]
pub enum RulesError {
    /// A placeholder other than `{stem}` and `{path}`; carries its name.
    UnknownPlaceholder(String),
    /// A `{` with no `}` after it; carries the template.
    UnbalancedBrace(String),
    /// An include pattern glob does not read, with glob's words for why.
    BadPattern { pattern: String, message: String },
}

impl RulesError {
    /// The words a report gives this error with.
    pub open spec fn text(self) -> Seq<char> {
        match self {
            RulesError::UnknownPlaceholder(name) => "unknown placeholder `{"@ + name@
                + "}` in an alias template; expected `{stem}` or `{path}`"@,
            RulesError::UnbalancedBrace(template) => "unbalanced `{` in the alias template: "@ + template@,
            RulesError::BadPattern { pattern, message } => "invalid include pattern `"@ + pattern@ + "`: "@
                + message@,
        }
    }

    /// Executable [`RulesError::text`].
    pub fn describe(&self) -> (out: String)
        ensures
            out@ == self.text(),
    {
        match self {
            RulesError::UnknownPlaceholder(name) => {
                let mut out = String::from_str("unknown placeholder `{");
                out.append(name.as_str());
                out.append("}` in an alias template; expected `{stem}` or `{path}`");
                out
            },
            RulesError::UnbalancedBrace(template) => {
                let mut out = String::from_str("unbalanced `{` in the alias template: ");
                out.append(template.as_str());
                out
            },
            RulesError::BadPattern { pattern, message } => {
                let mut out = String::from_str("invalid include pattern `");
                out.append(pattern.as_str());
                out.append("`: ");
                out.append(message.as_str());
                out
            },
        }
    }
}

/// The contents of one `_alias_rules.toml`.
#[derive(Debug, Clone, PartialEq, Eq)]
pub struct Rules {
    /// The alias every included file in this folder gets, with `{stem}` and `{path}` expanded.
    /// `None`: the folder derives no aliases, and only files with their own `.alias` are named.
    pub alias: Option<String>,
    /// Glob patterns, matched against the file name. `["*"]` when the file says nothing.
    pub patterns: Vec<String>,
}

/// The include list of a rule that says nothing about it: every file.
pub fn everything() -> (out: Vec<String>)
    ensures
        out@.len() == 1,
        out@[0]@ == "*"@,
{
    let mut out: Vec<String> = Vec::new();
    out.push(String::from_str("*"));
    out
}

impl Default for Rules {
    fn default() -> (out: Rules)
        ensures
            out.alias is None,
            out.patterns@.len() == 1,
            out.patterns@[0]@ == "*"@,
    {
        Rules { alias: None, patterns: everything() }
    }
}

/// What glob answers when asked to read `pattern`: nothing when it reads it, else the words of
/// its refusal.
pub uninterp spec fn glob_refusal(pattern: Seq<char>) -> Option<Seq<char>>;

/// Whether glob reads `pattern` as a pattern.
pub open spec fn glob_pattern_valid(pattern: Seq<char>) -> bool {
    glob_refusal(pattern) is None
}

/// glob's words for why it does not read `pattern`.
pub open spec fn glob_error_text(pattern: Seq<char>) -> Seq<char> {
    glob_refusal(pattern)->0
}

/// Whether `pattern`, read by glob, matches `name`.
pub uninterp spec fn glob_accepts(pattern: Seq<char>, name: Seq<char>) -> bool;

/// `glob::Pattern::new`: `None` when glob reads `pattern`, else the text of its `PatternError`.
/// Which patterns glob reads, and its words, are glob's and are not stated.
#[verifier::external_body]
fn pattern_error(pattern: &str) -> (out: Option<String>)
    ensures
        out is None <==> glob_refusal(pattern@) is None,
        out matches Some(m) ==> glob_refusal(pattern@) == Some(m@),
{
    match glob::Pattern::new(pattern) {
        Ok(_) => None,
        Err(err) => Some(err.to_string()),
    }
}

/// `glob::Pattern::matches`, with `pattern` read by `glob::Pattern::new` on the way in; a pattern
/// glob does not read matches nothing. Which names a pattern matches is glob's, except that `*`,
/// which glob documents as matching any sequence of characters, matches every name.
#[verifier::external_body]
fn pattern_accepts(pattern: &str, name: &str) -> (out: bool)
    ensures
        out == glob_accepts(pattern@, name@),
        pattern@ == "*"@ ==> out,
{
    match glob::Pattern::new(pattern) {
        Ok(compiled) => compiled.matches(name),
        Err(_) => false,
    }
}

/// The position of the first `c` in `s` at or after `from`, or -1.
pub open spec fn find_char(s: Seq<char>, c: char, from: nat) -> int
    decreases s.len() - from,
{
    if from >= s.len() {
        -1
    } else if s[from as int] == c {
        from as int
    } else {
        find_char(s, c, from + 1)
    }
}

/// Where `find_char` lands: on a `c`, past none, or nowhere when there is none.
pub proof fn lemma_find_char_bounds(s: Seq<char>, c: char, from: nat)
    ensures
        find_char(s, c, from) == -1 || (from <= find_char(s, c, from) < s.len() && s[find_char(s, c, from)] == c),
        find_char(s, c, from) >= 0 ==> forall|k: int| from <= k < find_char(s, c, from) ==> s[k] != c,
        find_char(s, c, from) == -1 ==> forall|k: int| from <= k < s.len() ==> s[k] != c,
    decreases s.len() - from,
{
    if from < s.len() && s[from as int] != c {
        lemma_find_char_bounds(s, c, from + 1);
    }
}

/// What is wrong with an alias template.
pub enum TemplateFault {
    /// A `{` with no `}` after it.
    Unbalanced,
    /// A placeholder other than `{stem}` and `{path}`, by name.
    Unknown(Seq<char>),
}

/// What is wrong with `t` from position `from` on: the first `{` must be closed, and name `stem`
/// or `path`, and so on for every `{` after it.
pub open spec fn template_fault(t: Seq<char>, from: nat) -> Option<TemplateFault>
    decreases t.len() - from,
{
    let open = find_char(t, '{', from);
    if open < 0 {
        None
    } else {
        let close = find_char(t, '}', (open + 1) as nat);
        if close < 0 {
            Some(TemplateFault::Unbalanced)
        } else {
            let name = t.subrange(open + 1, close);
            if name != "stem"@ && name != "path"@ {
                Some(TemplateFault::Unknown(name))
            } else {
                proof {
                    lemma_find_char_bounds(t, '{', from);
                    lemma_find_char_bounds(t, '}', (open + 1) as nat);
                }
                template_fault(t, (close + 1) as nat)
            }
        }
    }
}

/// Whether `s[from..]` starts with `pat`.
pub open spec fn starts_at(s: Seq<char>, from: int, pat: Seq<char>) -> bool {
    0 <= from && from + pat.len() <= s.len() && s.subrange(from, from + pat.len()) == pat
}

/// The first `c` in `chars` at or after `from`.
fn find_char_exec(chars: &Vec<char>, c: char, from: usize) -> (out: Option<usize>)
    requires
        from <= chars@.len(),
    ensures
        out matches Some(k) ==> k == find_char(chars@, c, from as nat),
        out is None ==> find_char(chars@, c, from as nat) == -1,
{
    let mut k = from;
    while k < chars.len()
        invariant
            from <= k <= chars@.len(),
            find_char(chars@, c, from as nat) == find_char(chars@, c, k as nat),
        decreases chars@.len() - k,
    {
        if chars[k] == c {
            return Some(k);
        }
        k = k + 1;
    }
    None
}

/// Whether `chars[from..to]` is `word`.
fn span_is(chars: &Vec<char>, from: usize, to: usize, word: &str) -> (out: bool)
    requires
        from <= to <= chars@.len(),
    ensures
        out == (chars@.subrange(from as int, to as int) == word@),
{
    let w = chars_of(word);
    if to - from != w.len() {
        proof {
            assert(chars@.subrange(from as int, to as int).len() != word@.len());
        }
        return false;
    }
    let mut k: usize = 0;
    while k < w.len()
        invariant
            k <= w@.len(),
            w@ == word@,
            to - from == w@.len(),
            from <= to <= chars@.len(),
            forall|j: int| 0 <= j < k ==> #[trigger] chars@[from + j] == w@[j],
        decreases w@.len() - k,
    {
        if chars[from + k] != w[k] {
            proof {
                assert(chars@.subrange(from as int, to as int)[k as int] != word@[k as int]);
            }
            return false;
        }
        k = k + 1;
    }
    proof {
        assert forall|j: int| 0 <= j < word@.len() implies chars@.subrange(from as int, to as int)[j] == word@[j] by {
            assert(chars@[from + j] == w@[j]);
        }
        assert(chars@.subrange(from as int, to as int) =~= word@);
    }
    true
}

/// Rejects any placeholder that is not `{stem}` or `{path}`, and any unclosed `{`.
pub fn check_template(template: &str) -> (out: Result<(), RulesError>)
    ensures
        template_fault(template@, 0) is None ==> out is Ok,
        template_fault(template@, 0) matches Some(TemplateFault::Unbalanced) ==> (out matches Err(
            RulesError::UnbalancedBrace(t),
        ) && t@ == template@),
        template_fault(template@, 0) matches Some(TemplateFault::Unknown(name)) ==> (out matches Err(
            RulesError::UnknownPlaceholder(n),
        ) && n@ == name),
{
    let chars = chars_of(template);
    let mut pos: usize = 0;
    while pos <= chars.len()
        invariant
            chars@ == template@,
            pos <= chars@.len() + 1,
            template_fault(template@, 0) == template_fault(template@, pos as nat),
        decreases chars@.len() + 1 - pos,
    {
        if pos == chars.len() {
            proof {
                assert(find_char(template@, '{', pos as nat) == -1);
            }
            return Ok(());
        }
        let open = match find_char_exec(&chars, '{', pos) {
            Some(open) => open,
            None => return Ok(()),
        };
        proof {
            lemma_find_char_bounds(template@, '{', pos as nat);
        }
        let close = match find_char_exec(&chars, '}', open + 1) {
            Some(close) => close,
            None => return Err(RulesError::UnbalancedBrace(String::from_str(template))),
        };
        proof {
            lemma_find_char_bounds(template@, '}', (open + 1) as nat);
        }
        if !span_is(&chars, open + 1, close, "stem") && !span_is(&chars, open + 1, close, "path") {
            let mut name: Vec<char> = Vec::new();
            let mut k = open + 1;
            while k < close
                invariant
                    open + 1 <= k <= close,
                    close < chars@.len(),
                    name@ == chars@.subrange(open + 1, k as int),
                decreases close - k,
            {
                name.push(chars[k]);
                proof {
                    assert(chars@.subrange(open + 1, k + 1) =~= chars@.subrange(open + 1, k as int).push(chars@[k as int]));
                }
                k = k + 1;
            }
            return Err(RulesError::UnknownPlaceholder(string_of(name.as_slice())));
        }
        pos = close + 1;
    }
    Ok(())
}

/// The name up to its first dot: `airship.glb` and `terrain.height.png` lose their whole
/// extension.
pub open spec fn stem_of(name: Seq<char>) -> Seq<char> {
    let dot = find_char(name, '.', 0);
    if dot < 0 {
        name
    } else {
        name.take(dot)
    }
}

/// Executable [`stem_of`].
pub fn stem(file_name: &str) -> (out: String)
    ensures
        out@ == stem_of(file_name@),
{
    let chars = chars_of(file_name);
    match find_char_exec(&chars, '.', 0) {
        Some(dot) => {
            proof {
                lemma_find_char_bounds(file_name@, '.', 0);
            }
            let mut out: Vec<char> = Vec::new();
            let mut k: usize = 0;
            while k < dot
                invariant
                    k <= dot,
                    dot < chars@.len(),
                    out@ == chars@.take(k as int),
                decreases dot - k,
            {
                out.push(chars[k]);
                proof {
                    assert(chars@.take(k + 1) =~= chars@.take(k as int).push(chars@[k as int]));
                }
                k = k + 1;
            }
            string_of(out.as_slice())
        },
        None => String::from_str(file_name),
    }
}

/// `s` with every `pat`, left to right and without overlap, replaced by `with`.
pub open spec fn replaced(s: Seq<char>, pat: Seq<char>, with: Seq<char>) -> Seq<char>
    decreases s.len(),
{
    if s.len() == 0 {
        Seq::empty()
    } else if pat.len() > 0 && starts_at(s, 0, pat) {
        with + replaced(s.skip(pat.len() as int), pat, with)
    } else {
        seq![s[0]] + replaced(s.drop_first(), pat, with)
    }
}

/// Executable [`replaced`].
pub fn replace_text(s: &str, pat: &str, with: &str) -> (out: String)
    ensures
        out@ == replaced(s@, pat@, with@),
{
    let chars = chars_of(s);
    let plen = chars_of(pat).len();
    let n = chars.len();
    let mut out = String::new();
    let mut i: usize = 0;
    proof {
        assert(s@.skip(0) =~= s@);
    }
    while i < n
        invariant
            i <= n,
            n == s@.len(),
            chars@ == s@,
            plen == pat@.len(),
            out@ + replaced(s@.skip(i as int), pat@, with@) == replaced(s@, pat@, with@),
        decreases n - i,
    {
        let ghost rest = s@.skip(i as int);
        if plen > 0 && plen <= n - i && span_is(&chars, i, i + plen, pat) {
            proof {
                assert(rest.subrange(0, pat@.len() as int) =~= s@.subrange(i as int, i + plen));
                assert(rest.skip(pat@.len() as int) =~= s@.skip(i + plen));
                assert(out@ + with@ + replaced(s@.skip(i + plen), pat@, with@) =~= out@ + replaced(rest, pat@, with@));
            }
            out.append(with);
            i = i + plen;
        } else {
            proof {
                if pat@.len() > 0 && starts_at(rest, 0, pat@) {
                    assert(rest.subrange(0, pat@.len() as int) =~= s@.subrange(i as int, i + plen));
                }
                assert(rest.drop_first() =~= s@.skip(i + 1));
                assert(rest[0] == chars@[i as int]);
                assert(out@.push(chars@[i as int]) + replaced(s@.skip(i + 1), pat@, with@) =~= out@ + replaced(rest, pat@, with@));
            }
            out.push(chars[i]);
            i = i + 1;
        }
    }
    proof {
        assert(s@.skip(n as int) =~= Seq::<char>::empty());
        assert(out@ + Seq::<char>::empty() =~= out@);
    }
    out
}

/// Whether `pat` occurs anywhere in `s`.
pub open spec fn contains_text(s: Seq<char>, pat: Seq<char>) -> bool {
    exists|k: int| #[trigger] starts_at(s, k, pat)
}

/// Executable [`contains_text`].
pub fn has_text(s: &str, pat: &str) -> (out: bool)
    ensures
        out == contains_text(s@, pat@),
{
    let chars = chars_of(s);
    let plen = chars_of(pat).len();
    let n = chars.len();
    if plen == 0 {
        proof {
            assert(s@.subrange(0, 0) =~= pat@);
            assert(starts_at(s@, 0, pat@));
        }
        return true;
    }
    if plen > n {
        proof {
            assert forall|k: int| !#[trigger] starts_at(s@, k, pat@) by {}
        }
        return false;
    }
    let mut k: usize = 0;
    while k <= n - plen
        invariant
            1 <= plen <= n,
            n == s@.len(),
            chars@ == s@,
            plen == pat@.len(),
            forall|j: int| 0 <= j < k ==> !#[trigger] starts_at(s@, j, pat@),
        decreases n - plen + 1 - k,
    {
        if span_is(&chars, k, k + plen, pat) {
            proof {
                assert(starts_at(s@, k as int, pat@));
            }
            return true;
        }
        k = k + 1;
    }
    proof {
        assert forall|j: int| !#[trigger] starts_at(s@, j, pat@) by {
            if 0 <= j < k {
            }
        }
    }
    false
}

/// The position of the last `/` in `s`, or -1.
pub open spec fn last_slash(s: Seq<char>) -> int
    decreases s.len(),
{
    if s.len() == 0 {
        -1
    } else if s.last() == '/' {
        s.len() - 1
    } else {
        last_slash(s.drop_last())
    }
}

proof fn lemma_last_slash_bounds(s: Seq<char>)
    ensures
        -1 <= last_slash(s) < s.len(),
        last_slash(s) >= 0 ==> s[last_slash(s)] == '/',
        forall|k: int| last_slash(s) < k < s.len() ==> s[k] != '/',
    decreases s.len(),
{
    if s.len() > 0 && s.last() != '/' {
        lemma_last_slash_bounds(s.drop_last());
        assert forall|k: int| last_slash(s) < k < s.len() implies s[k] != '/' by {
            if k < s.len() - 1 {
                assert(s.drop_last()[k] == s[k]);
            }
        }
    }
}

/// The last component of `path`; none for an empty path or one that ends in `..`.
pub open spec fn file_name_of(path: Seq<char>) -> Option<Seq<char>> {
    let name = path.skip(last_slash(path) + 1);
    if name.len() == 0 || name == ".."@ {
        None
    } else {
        Some(name)
    }
}

/// `path` relative to `dir`: what follows `dir` and a `/`, or all of `path` when `dir` is empty.
pub open spec fn relative_to(dir: Seq<char>, path: Seq<char>) -> Option<Seq<char>> {
    if dir.len() == 0 {
        Some(path)
    } else if path.len() > dir.len() && path.take(dir.len() as int) == dir && path[dir.len() as int] == '/' {
        Some(path.skip(dir.len() + 1int))
    } else {
        None
    }
}

/// The file's path relative to `dir`, with its last component reduced to its stem; none when the
/// file is not under `dir`.
pub open spec fn alias_path(dir: Seq<char>, path: Seq<char>) -> Option<Seq<char>> {
    match relative_to(dir, path) {
        Some(rel) => if rel.len() == 0 {
            None
        } else {
            let cut = last_slash(rel) + 1;
            Some(rel.take(cut) + stem_of(rel.skip(cut)))
        },
        None => None,
    }
}

/// The alias a rule at `dir` with `template` derives for the file at `path`: none for a file
/// that is not under `dir`; else `{stem}` expanded, then `{path}` if the template itself uses it.
pub open spec fn derived_alias(dir: Seq<char>, template: Option<Seq<char>>, path: Seq<char>) -> Option<Seq<char>> {
    match template {
        None => None,
        Some(t) => match file_name_of(path) {
            None => None,
            Some(name) => if relative_to(dir, path) is None {
                None
            } else {
                let expanded = replaced(t, "{stem}"@, stem_of(name));
                if contains_text(t, "{path}"@) {
                    match alias_path(dir, path) {
                        Some(p) => Some(replaced(expanded, "{path}"@, p)),
                        None => None,
                    }
                } else {
                    Some(expanded)
                }
            },
        },
    }
}

proof fn lemma_last_slash_past_plain_text(a: Seq<char>, b: Seq<char>)
    requires
        !b.contains('/'),
    ensures
        last_slash(a + b) == last_slash(a),
    decreases b.len(),
{
    if b.len() == 0 {
        assert(a + b =~= a);
    } else {
        assert(b.last() != '/') by {
            assert(b[b.len() - 1] == b.last());
        }
        assert((a + b).drop_last() =~= a + b.drop_last());
        assert(!b.drop_last().contains('/')) by {
            if b.drop_last().contains('/') {
                let i = choose|i: int| 0 <= i < b.drop_last().len() && b.drop_last()[i] == '/';
                assert(b[i] == '/');
            }
        }
        lemma_last_slash_past_plain_text(a, b.drop_last());
    }
}

/// The name of the file at `prefix` followed by `name`, where `prefix` ends in `/` and `name`
/// holds none.
proof fn lemma_file_name_after_slash(prefix: Seq<char>, name: Seq<char>)
    requires
        prefix.len() > 0,
        prefix.last() == '/',
        !name.contains('/'),
    ensures
        (prefix + name).skip(last_slash(prefix + name) + 1) == name,
{
    lemma_last_slash_past_plain_text(prefix, name);
    assert(last_slash(prefix) == prefix.len() - 1);
    assert((prefix + name).skip(prefix.len() as int) =~= name);
}

/// `{stem}` reads the file's name alone: a rule whose template does not use `{path}` derives
/// the same alias for a file directly in its directory as for a file of the same name any number
/// of directories below it, namely its template with `{stem}` replaced by the file's stem.
pub proof fn lemma_stem_ignores_subdirectories(dir: Seq<char>, t: Seq<char>, sub: Seq<char>, name: Seq<char>)
    requires
        dir.len() > 0,
        !contains_text(t, "{path}"@),
        name.len() > 0,
        name != ".."@,
        !name.contains('/'),
    ensures
        derived_alias(dir, Some(t), dir + "/"@ + name) == Some(replaced(t, "{stem}"@, stem_of(name))),
        derived_alias(dir, Some(t), dir + "/"@ + sub + "/"@ + name) == Some(replaced(t, "{stem}"@, stem_of(name))),
{
    reveal_strlit("/");
    let near_prefix = dir + "/"@;
    let far_prefix = dir + "/"@ + sub + "/"@;
    let near = near_prefix + name;
    let far = far_prefix + name;
    assert(near == dir + "/"@ + name);
    assert(far == dir + "/"@ + sub + "/"@ + name);
    assert(near_prefix.last() == '/');
    assert(far_prefix.last() == '/');
    lemma_file_name_after_slash(near_prefix, name);
    lemma_file_name_after_slash(far_prefix, name);
    assert(file_name_of(near) == Some(name));
    assert(file_name_of(far) == Some(name));
    assert(near.take(dir.len() as int) =~= dir);
    assert(far.take(dir.len() as int) =~= dir);
    assert(near[dir.len() as int] == '/');
    assert(far[dir.len() as int] == '/');
    assert(relative_to(dir, near) is Some);
    assert(relative_to(dir, far) is Some);
}

/// `{path}` keeps the subdirectories: for a file some directories below the rule's directory,
/// the template's `{path}` becomes the file's directories below the rule's, then its stem, and
/// its `{stem}` the stem alone.
pub proof fn lemma_path_keeps_subdirectories(dir: Seq<char>, t: Seq<char>, sub: Seq<char>, name: Seq<char>)
    requires
        dir.len() > 0,
        contains_text(t, "{path}"@),
        name.len() > 0,
        name != ".."@,
        !name.contains('/'),
    ensures
        derived_alias(dir, Some(t), dir + "/"@ + sub + "/"@ + name) == Some(
            replaced(replaced(t, "{stem}"@, stem_of(name)), "{path}"@, sub + "/"@ + stem_of(name)),
        ),
{
    reveal_strlit("/");
    let far_prefix = dir + "/"@ + sub + "/"@;
    let far = far_prefix + name;
    assert(far == dir + "/"@ + sub + "/"@ + name);
    assert(far_prefix.last() == '/');
    lemma_file_name_after_slash(far_prefix, name);
    assert(file_name_of(far) == Some(name));
    assert(far.take(dir.len() as int) =~= dir);
    assert(far[dir.len() as int] == '/');
    let rel = far.skip(dir.len() + 1int);
    let rel_prefix = sub + "/"@;
    assert(rel =~= rel_prefix + name);
    assert(relative_to(dir, far) == Some(rel));
    assert(rel_prefix.last() == '/');
    lemma_last_slash_past_plain_text(rel_prefix, name);
    assert(last_slash(rel_prefix) == rel_prefix.len() - 1);
    assert(rel.take(rel_prefix.len() as int) =~= rel_prefix);
    assert(rel.skip(rel_prefix.len() as int) =~= name);
    assert(alias_path(dir, far) == Some(rel_prefix + stem_of(name)));
}

/// A file with a name under `dir` has a path relative to `dir`.
proof fn lemma_named_file_has_alias_path(dir: Seq<char>, path: Seq<char>)
    requires
        file_name_of(path) is Some,
        relative_to(dir, path) is Some,
    ensures
        alias_path(dir, path) is Some,
{
    let rel = relative_to(dir, path)->0;
    if rel.len() == 0 {
        assert(path.len() > 0);
        assert(path.last() == '/') by {
            if dir.len() > 0 {
                assert(path.len() == dir.len() + 1);
            }
        }
        assert(last_slash(path) == path.len() - 1);
        assert(path.skip(path.len() as int).len() == 0);
    }
}

/// The position of the first pattern glob does not read, or -1.
pub open spec fn first_bad_pattern(patterns: Seq<String>) -> int
    decreases patterns.len(),
{
    if patterns.len() == 0 {
        -1
    } else {
        let rest = first_bad_pattern(patterns.drop_last());
        if rest >= 0 {
            rest
        } else if !glob_pattern_valid(patterns.last()@) {
            patterns.len() - 1
        } else {
            -1
        }
    }
}

/// A rule as the contracts see it: where it sits, its template, its patterns.
pub struct RuleView {
    pub dir: Seq<char>,
    pub alias: Option<Seq<char>>,
    pub patterns: Seq<Seq<char>>,
}

/// The view of an optional string.
pub open spec fn opt_view(s: Option<String>) -> Option<Seq<char>> {
    match s {
        Some(t) => Some(t@),
        None => None,
    }
}

/// A [`Rules`] with its template checked and its patterns checked, bound to the directory it was
/// found in.
#[derive(Debug, Clone)]
pub struct CompiledRules {
    dir: String,
    alias: Option<String>,
    patterns: Vec<String>,
}

impl View for CompiledRules {
    type V = RuleView;

    closed spec fn view(&self) -> RuleView {
        RuleView { dir: self.dir@, alias: opt_view(self.alias), patterns: crate::text::views(self.patterns@) }
    }
}

/// A copy of an optional string.
fn copy_opt(s: &Option<String>) -> (out: Option<String>)
    ensures
        opt_view(out) == opt_view(*s),
{
    match s {
        Some(t) => Some(t.clone()),
        None => None,
    }
}

impl CompiledRules {
    /// A copy of this rule, for a subdirectory to inherit.
    pub fn duplicate(&self) -> (out: CompiledRules)
        ensures
            out@ == self@,
    {
        let mut patterns: Vec<String> = Vec::new();
        let mut k: usize = 0;
        while k < self.patterns.len()
            invariant
                k <= self.patterns@.len(),
                patterns@.len() == k,
                crate::text::views(patterns@) == crate::text::views(self.patterns@).take(k as int),
            decreases self.patterns@.len() - k,
        {
            let ghost before = patterns@;
            patterns.push(self.patterns[k].clone());
            proof {
                assert(patterns@[k as int]@ == self.patterns@[k as int]@);
                assert forall|j: int| 0 <= j < k implies patterns@[j]@ == self.patterns@[j]@ by {
                    assert(patterns@[j] == before[j]);
                    assert(crate::text::views(before)[j] == crate::text::views(self.patterns@).take(k as int)[j]);
                }
                assert(crate::text::views(patterns@) =~= crate::text::views(self.patterns@).take(k + 1));
            }
            k = k + 1;
        }
        proof {
            assert(crate::text::views(self.patterns@).take(self.patterns@.len() as int) =~= crate::text::views(self.patterns@));
        }
        CompiledRules { dir: self.dir.clone(), alias: copy_opt(&self.alias), patterns }
    }

    /// Checks a rule once, at the rule, so that a bad template is one error naming the rule
    /// rather than one per asset: the template first, then each pattern in order.
    pub fn compile(rules: Rules, dir: &str) -> (out: Result<CompiledRules, RulesError>)
        ensures
            match rules.alias {
                Some(t) => template_fault(t@, 0) matches Some(f) ==> match f {
                    TemplateFault::Unbalanced => out matches Err(RulesError::UnbalancedBrace(x)) && x@ == t@,
                    TemplateFault::Unknown(name) => out matches Err(RulesError::UnknownPlaceholder(x)) && x@ == name,
                },
                None => true,
            },
            (rules.alias matches Some(t) ==> template_fault(t@, 0) is None) ==> {
                if first_bad_pattern(rules.patterns@) >= 0 {
                    out matches Err(RulesError::BadPattern { pattern, message }) && pattern@
                        == rules.patterns@[first_bad_pattern(rules.patterns@)]@ && message@ == glob_error_text(pattern@)
                } else {
                    out matches Ok(c) && c@ == RuleView {
                        dir: dir@,
                        alias: opt_view(rules.alias),
                        patterns: crate::text::views(rules.patterns@),
                    }
                }
            },
    {
        if let Some(template) = &rules.alias {
            if let Err(e) = check_template(template.as_str()) {
                return Err(e);
            }
            proof {
                assert(template_fault(template@, 0) is None);
            }
        }
        let mut k: usize = 0;
        while k < rules.patterns.len()
            invariant
                k <= rules.patterns@.len(),
                first_bad_pattern(rules.patterns@.take(k as int)) == -1,
                rules.alias matches Some(t) ==> template_fault(t@, 0) is None,
            decreases rules.patterns@.len() - k,
        {
            proof {
                assert(rules.patterns@.take(k + 1).drop_last() =~= rules.patterns@.take(k as int));
            }
            match pattern_error(rules.patterns[k].as_str()) {
                Some(message) => {
                    proof {
                        lemma_first_bad_extends(rules.patterns@, k as int);
                    }
                    return Err(RulesError::BadPattern { pattern: rules.patterns[k].clone(), message });
                },
                None => {},
            }
            k = k + 1;
        }
        proof {
            assert(rules.patterns@.take(rules.patterns@.len() as int) =~= rules.patterns@);
        }
        Ok(CompiledRules { dir: String::from_str(dir), alias: copy_opt(&rules.alias), patterns: rules.patterns })
    }

    /// Whether this rule claims a file, by name: whether any pattern matches it.
    pub fn includes(&self, file_name: &str) -> (out: bool)
        ensures
            out == exists|k: int| 0 <= k < self@.patterns.len() && #[trigger] glob_accepts(self@.patterns[k], file_name@),
    {
        let mut k: usize = 0;
        while k < self.patterns.len()
            invariant
                k <= self.patterns@.len(),
                forall|j: int| 0 <= j < k ==> !#[trigger] glob_accepts(self@.patterns[j], file_name@),
            decreases self.patterns@.len() - k,
        {
            if pattern_accepts(self.patterns[k].as_str(), file_name) {
                proof {
                    assert(glob_accepts(self@.patterns[k as int], file_name@));
                }
                return true;
            }
            k = k + 1;
        }
        false
    }
}

proof fn lemma_first_bad_extends(patterns: Seq<String>, k: int)
    requires
        0 <= k < patterns.len(),
        first_bad_pattern(patterns.take(k)) == -1,
        !glob_pattern_valid(patterns[k]@),
    ensures
        first_bad_pattern(patterns) == k,
    decreases patterns.len(),
{
    if k < patterns.len() - 1 {
        assert(patterns.drop_last().take(k) =~= patterns.take(k));
        assert(patterns.drop_last()[k] == patterns[k]);
        lemma_first_bad_extends(patterns.drop_last(), k);
    } else {
        assert(patterns.drop_last() =~= patterns.take(k));
    }
}

/// The position of the last `/` in `chars`, or -1 as `None`.
fn last_slash_exec(chars: &Vec<char>) -> (out: Option<usize>)
    ensures
        out matches Some(k) ==> k == last_slash(chars@) && k < chars@.len(),
        out is None ==> last_slash(chars@) == -1,
{
    let mut k = chars.len();
    proof {
        assert(chars@.take(chars@.len() as int) =~= chars@);
    }
    while k > 0
        invariant
            k <= chars@.len(),
            last_slash(chars@) == last_slash(chars@.take(k as int)),
        decreases k,
    {
        proof {
            assert(chars@.take(k as int).drop_last() =~= chars@.take(k - 1));
        }
        if chars[k - 1] == '/' {
            return Some(k - 1);
        }
        k = k - 1;
    }
    None
}

/// `chars[from..to]` as a string.
fn slice_text(chars: &Vec<char>, from: usize, to: usize) -> (out: String)
    requires
        from <= to <= chars@.len(),
    ensures
        out@ == chars@.subrange(from as int, to as int),
{
    let mut part: Vec<char> = Vec::new();
    let mut k = from;
    while k < to
        invariant
            from <= k <= to,
            to <= chars@.len(),
            part@ == chars@.subrange(from as int, k as int),
        decreases to - k,
    {
        part.push(chars[k]);
        proof {
            assert(chars@.subrange(from as int, k + 1) =~= chars@.subrange(from as int, k as int).push(chars@[k as int]));
        }
        k = k + 1;
    }
    string_of(part.as_slice())
}

/// The last component of `path`, if it has a usable one.
pub fn file_name(path: &str) -> (out: Option<String>)
    ensures
        opt_view(out) == file_name_of(path@),
{
    let chars = chars_of(path);
    let n = chars.len();
    let start = match last_slash_exec(&chars) {
        Some(k) => k + 1,
        None => 0,
    };
    proof {
        lemma_last_slash_bounds(path@);
    }
    let name = slice_text(&chars, start, n);
    proof {
        assert(path@.skip(last_slash(path@) + 1) =~= chars@.subrange(start as int, chars@.len() as int));
    }
    if name.as_str().unicode_len() == 0 || str_eq(name.as_str(), "..") {
        proof {
            reveal_strlit("..");
        }
        None
    } else {
        Some(name)
    }
}

impl CompiledRules {
    /// The file's path relative to this rule's directory, `/` separated, with the last component
    /// reduced to its stem; none when the file is not under the directory.
    fn relative_alias_path(&self, path: &str) -> (out: Option<String>)
        ensures
            opt_view(out) == alias_path(self@.dir, path@),
    {
        let d = chars_of(self.dir.as_str());
        let p = chars_of(path);
        let start: usize = if d.len() == 0 {
            0
        } else {
            if p.len() <= d.len() || !span_is(&p, 0, d.len(), self.dir.as_str()) || p[d.len()] != '/' {
                proof {
                    if p@.len() > d@.len() {
                        assert(path@.take(d@.len() as int) =~= p@.subrange(0, d@.len() as int));
                    }
                }
                return None;
            }
            proof {
                assert(path@.take(d@.len() as int) =~= p@.subrange(0, d@.len() as int));
            }
            d.len() + 1
        };
        let rel = slice_text(&p, start, p.len());
        proof {
            assert(rel@ =~= path@.skip(start as int));
            assert(relative_to(self@.dir, path@) == Some(rel@));
        }
        let r = chars_of(rel.as_str());
        if r.len() == 0 {
            return None;
        }
        let cut = match last_slash_exec(&r) {
            Some(k) => k + 1,
            None => 0,
        };
        proof {
            lemma_last_slash_bounds(rel@);
        }
        let mut out = slice_text(&r, 0, cut);
        let last = slice_text(&r, cut, r.len());
        let last_stem = stem(last.as_str());
        out.append(last_stem.as_str());
        proof {
            assert(out@ =~= rel@.take(cut as int) + stem_of(rel@.skip(cut as int)));
        }
        Some(out)
    }

    /// The alias this rule derives for the file at `path`: none when the rule carries no
    /// template, when the path has no file name, or when the file is not under the rule's
    /// directory.
    pub fn alias_for(&self, path: &str) -> (out: Option<String>)
        ensures
            opt_view(out) == derived_alias(self@.dir, self@.alias, path@),
    {
        let template = match &self.alias {
            Some(t) => t,
            None => return None,
        };
        let name = match file_name(path) {
            Some(name) => name,
            None => return None,
        };
        let relative = match self.relative_alias_path(path) {
            Some(p) => p,
            None => {
                proof {
                    if relative_to(self@.dir, path@) is Some {
                        lemma_named_file_has_alias_path(self@.dir, path@);
                    }
                }
                return None;
            },
        };
        let needs_path = has_text(template.as_str(), "{path}");
        let name_stem = stem(name.as_str());
        let expanded = replace_text(template.as_str(), "{stem}", name_stem.as_str());
        if needs_path {
            Some(replace_text(expanded.as_str(), "{path}", relative.as_str()))
        } else {
            Some(expanded)
        }
    }
}

} // verus!
