//! The template configuration: a section grammar over the token stream,
//! with variables resolved through a caller's [`VariableMap`].
use vstd::prelude::*;
use vstd::string::StringExecFns;
use crate::chars::{chars_of, eq_lit, split_on, split_ranges};
use crate::file::parser::{pairs_view, tokenize};
use crate::file::tokens::{is_variable, literal_of, objs_view, opt_chars, var_format, var_name, ObjV, TokV};
use crate::file::{Object, Token};
use super::version::{version_of, version_ok, Version};

verus! {

/// A parsed template configuration.
#[derive(Debug, Clone, PartialEq, Eq)]
pub struct Config {
    pub name: String,
    pub version: Version,
    pub file_names: bool,
    pub keys: Vec<(String, String)>,
    /// relative path, then url
    pub deps: Vec<(String, String)>,
}

/// Why a configuration is rejected; lines are counted from 1.
#[derive(Debug, Clone, PartialEq, Eq)]
pub enum ConfigError {
    MissingName,
    DuplicateProperty(String),
    InvalidSyntax(usize),
    UnknownTag(usize, String),
    UnknownVariable(usize, String),
    UnknownProperty(usize, String),
    DependencyOutsideProject(usize, String),
}

pub enum ErrV {
    MissingName,
    DuplicateProperty(Seq<char>),
    InvalidSyntax(int),
    UnknownTag(int, Seq<char>),
    UnknownVariable(int, Seq<char>),
    UnknownProperty(int, Seq<char>),
    DependencyOutsideProject(int, Seq<char>),
}

impl View for ConfigError {
    type V = ErrV;

    open spec fn view(&self) -> ErrV {
        match self {
            ConfigError::MissingName => ErrV::MissingName,
            ConfigError::DuplicateProperty(p) => ErrV::DuplicateProperty(p@),
            ConfigError::InvalidSyntax(l) => ErrV::InvalidSyntax(*l as int),
            ConfigError::UnknownTag(l, n) => ErrV::UnknownTag(*l as int, n@),
            ConfigError::UnknownVariable(l, n) => ErrV::UnknownVariable(*l as int, n@),
            ConfigError::UnknownProperty(l, n) => ErrV::UnknownProperty(*l as int, n@),
            ConfigError::DependencyOutsideProject(l, p) => ErrV::DependencyOutsideProject(
                *l as int,
                p@,
            ),
        }
    }
}

pub type Pairs = Seq<(Seq<char>, Seq<char>)>;

pub open spec fn pairs_of(v: Seq<(String, String)>) -> Pairs {
    v.map_values(|p: (String, String)| (p.0@, p.1@))
}

pub struct ConfigV {
    pub name: Seq<char>,
    pub version: Version,
    pub file_names: bool,
    pub keys: Pairs,
    pub deps: Pairs,
}

impl View for Config {
    type V = ConfigV;

    open spec fn view(&self) -> ConfigV {
        ConfigV {
            name: self.name@,
            version: self.version,
            file_names: self.file_names,
            keys: pairs_of(self.keys@),
            deps: pairs_of(self.deps@),
        }
    }
}

pub open spec fn str_result(r: Result<String, ConfigError>) -> Result<Seq<char>, ErrV> {
    match r {
        Ok(s) => Ok(s@),
        Err(e) => Err(e@),
    }
}

pub open spec fn config_result_view(r: Result<Config, ConfigError>) -> Result<ConfigV, ErrV> {
    match r {
        Ok(c) => Ok(c@),
        Err(e) => Err(e@),
    }
}

/// What the parser asks of its caller: the text of a variable, given the
/// line it stands on, its name and its format.
pub trait VariableMap {
    spec fn answer(&self, line: int, name: Seq<char>, format: Option<Seq<char>>) -> Result<
        Seq<char>,
        ErrV,
    >;

    /// The text of a variable; the call may change the map's own state
    /// (to record what was asked) but not its answers.
    /// Whether the map keeps a log of what it is asked.
    spec fn logs(&self) -> bool;

    /// What the map was asked so far, where it keeps a log: line, name and
    /// format of each call, in order.
    spec fn log(&self) -> Seq<Call>;

    fn map(&mut self, i: usize, v: &str, f: Option<String>) -> (r: Result<String, ConfigError>)
        ensures
            str_result(r) == old(self).answer(i as int, v@, opt_chars(f)),
            final(self).logs() == old(self).logs(),
            old(self).logs() ==> final(self).log() == old(self).log() + seq![
                (i as int, v@, opt_chars(f)),
            ],
            forall|l: int, n: Seq<char>, g: Option<Seq<char>>|
                #[trigger] final(self).answer(l, n, g) == old(self).answer(l, n, g),
    ;
}

/// One lookup: the line, the variable's name and its format.
pub type Call = (int, Seq<char>, Option<Seq<char>>);

/// `b` is `a` after the lookups `calls`: a map that keeps a log has them
/// added to it.
pub open spec fn logged<T: VariableMap>(a: Option<T>, b: Option<T>, calls: Seq<Call>) -> bool {
    match (a, b) {
        (Some(x), Some(y)) => y.logs() == x.logs() && (x.logs() ==> y.log() == x.log() + calls),
        _ => true,
    }
}

pub proof fn lemma_log_unchanged<T: VariableMap>(a: Option<T>)
    ensures
        logged(a, a, Seq::empty()),
{
    if let Some(x) = a {
        assert(x.log() + Seq::<Call>::empty() =~= x.log());
    }
}

pub proof fn lemma_logged_trans<T: VariableMap>(
    a: Option<T>,
    b: Option<T>,
    c: Option<T>,
    s1: Seq<Call>,
    s2: Seq<Call>,
)
    requires
        logged(a, b, s1),
        logged(b, c, s2),
        a is Some <==> b is Some,
        b is Some <==> c is Some,
    ensures
        logged(a, c, s1 + s2),
{
    if let (Some(x), Some(y), Some(z)) = (a, b, c) {
        assert(x.log() + s1 + s2 =~= x.log() + (s1 + s2));
    }
}

/// Whether two optional maps give the same answers.
pub open spec fn same_answers<T: VariableMap>(a: Option<T>, b: Option<T>) -> bool {
    match (a, b) {
        (Some(x), Some(y)) => forall|l: int, n: Seq<char>, g: Option<Seq<char>>|
            #[trigger] x.answer(l, n, g) == y.answer(l, n, g),
        (None, None) => true,
        _ => false,
    }
}

/// No variables at all: every reference is unknown.
impl VariableMap for () {
    open spec fn answer(&self, line: int, name: Seq<char>, format: Option<Seq<char>>) -> Result<
        Seq<char>,
        ErrV,
    > {
        Err(ErrV::UnknownVariable(line, name))
    }

    open spec fn logs(&self) -> bool {
        false
    }

    open spec fn log(&self) -> Seq<Call> {
        Seq::empty()
    }

    fn map(&mut self, i: usize, v: &str, f: Option<String>) -> (r: Result<String, ConfigError>) {
        let mut name = String::new();
        name.append(v);
        Err(ConfigError::UnknownVariable(i, name))
    }
}

// ---------------------------------------------------------------- grammar

#[derive(Debug, Clone, Copy, PartialEq, Eq, Structural)]
pub enum Section {
    Project,
    Subs,
    Deps,
    Unset,
}

pub struct ParseState {
    pub section: Section,
    pub name: Option<Seq<char>>,
    pub version: Option<Version>,
    pub file_names: Option<bool>,
    pub keys: Pairs,
    pub deps: Pairs,
}

pub open spec fn parse_start() -> ParseState {
    ParseState {
        section: Section::Unset,
        name: None,
        version: None,
        file_names: None,
        keys: Seq::empty(),
        deps: Seq::empty(),
    }
}

/// The text of one object: literal text as it is, a variable through
/// `args`, or, without `args`, a syntax error.
pub open spec fn resolve_obj<T: VariableMap>(o: ObjV, line: int, args: Option<T>) -> Result<
    Seq<char>,
    ErrV,
> {
    match literal_of(o) {
        Some(s) => Ok(s),
        None => match args {
            Some(a) => a.answer(line, var_name(o), var_format(o)),
            None => Err(ErrV::InvalidSyntax(line)),
        },
    }
}

/// The texts of the objects one after another; the first error stops.
pub open spec fn resolve_group<T: VariableMap>(objs: Seq<ObjV>, line: int, args: Option<T>) -> Result<
    Seq<char>,
    ErrV,
>
    decreases objs.len(),
{
    if objs.len() == 0 {
        Ok(Seq::empty())
    } else {
        match resolve_group(objs.drop_last(), line, args) {
            Err(e) => Err(e),
            Ok(s) => match resolve_obj(objs.last(), line, args) {
                Err(e) => Err(e),
                Ok(t) => Ok(s + t),
            },
        }
    }
}

pub open spec fn bool_of(s: Seq<char>) -> Option<bool> {
    if s == "true"@ {
        Some(true)
    } else if s == "false"@ {
        Some(false)
    } else {
        None
    }
}

/// Change of depth for one path component: `..` goes up, `.` and empty
/// components stay, any other goes down.
pub open spec fn depth_change(c: Seq<char>) -> int {
    if c == ".."@ {
        -1
    } else if c == "."@ || c.len() == 0 {
        0
    } else {
        1
    }
}

/// The depth after the components, or None once it went below the root.
pub open spec fn walk_depth(cs: Seq<Seq<char>>) -> Option<int>
    decreases cs.len(),
{
    if cs.len() == 0 {
        Some(0)
    } else {
        match walk_depth(cs.drop_last()) {
            None => None,
            Some(d) => if d + depth_change(cs.last()) < 0 {
                None
            } else {
                Some(d + depth_change(cs.last()))
            },
        }
    }
}

/// Whether a relative path climbs above the directory it starts in at any
/// point.
pub open spec fn leaves_root(path: Seq<char>) -> bool {
    walk_depth(split_on(path, '/')) is None
}

/// The effect of one token with its 0-based line index.
pub open spec fn step_token<T: VariableMap>(st: ParseState, t: TokV, idx: nat, args: Option<T>) -> Result<
    ParseState,
    ErrV,
> {
    let i = idx + 1int;
    match t {
        TokV::Tag(name) => {
            if name == "project"@ {
                Ok(ParseState { section: Section::Project, ..st })
            } else if name == "subs"@ {
                Ok(ParseState { section: Section::Subs, ..st })
            } else if name == "deps"@ {
                Ok(ParseState { section: Section::Deps, ..st })
            } else {
                Err(ErrV::UnknownTag(i, name))
            }
        },
        _ => if args is None && st.section != Section::Project {
            Ok(st)
        } else {
            match st.section {
                Section::Project => match t {
                    TokV::Assign(ObjV::Abs(n), v) => {
                        let none = Option::<T>::None;
                        if n == "name"@ {
                            if st.name is Some {
                                Err(ErrV::DuplicateProperty("name"@))
                            } else {
                                match resolve_group(v, i, none) {
                                    Err(e) => Err(e),
                                    Ok(s) => Ok(ParseState { name: Some(s), ..st }),
                                }
                            }
                        } else if n == "file_names"@ {
                            if st.file_names is Some {
                                Err(ErrV::DuplicateProperty("file_names"@))
                            } else {
                                match resolve_group(v, i, none) {
                                    Err(e) => Err(e),
                                    Ok(s) => match bool_of(s) {
                                        Some(b) => Ok(ParseState { file_names: Some(b), ..st }),
                                        None => Err(ErrV::InvalidSyntax(i)),
                                    },
                                }
                            }
                        } else if n == "version"@ {
                            if st.version is Some {
                                Err(ErrV::DuplicateProperty("version"@))
                            } else {
                                match resolve_group(v, i, none) {
                                    Err(e) => Err(e),
                                    Ok(s) => if version_ok(s) {
                                        Ok(ParseState { version: Some(version_of(s)), ..st })
                                    } else {
                                        Err(ErrV::InvalidSyntax(i))
                                    },
                                }
                            }
                        } else {
                            Err(ErrV::UnknownProperty(i, n))
                        }
                    },
                    _ => Err(ErrV::InvalidSyntax(i)),
                },
                Section::Subs => match t {
                    TokV::Assign(k, v) => match literal_of(k) {
                        None => Err(ErrV::InvalidSyntax(i)),
                        Some(key) => match resolve_group(v, i, args) {
                            Err(e) => Err(e),
                            Ok(s) => Ok(ParseState { keys: st.keys.push((key, s)), ..st }),
                        },
                    },
                    _ => Err(ErrV::InvalidSyntax(i)),
                },
                Section::Deps => match t {
                    TokV::Assign(k, v) => match resolve_obj(k, i, args) {
                        Err(e) => Err(e),
                        Ok(path) => match resolve_group(v, i, args) {
                            Err(e) => Err(e),
                            Ok(url) => if leaves_root(path) {
                                Err(ErrV::DependencyOutsideProject(i, path))
                            } else {
                                Ok(ParseState { deps: st.deps.push((path, url)), ..st })
                            },
                        },
                    },
                    _ => Err(ErrV::InvalidSyntax(i)),
                },
                Section::Unset => Err(ErrV::InvalidSyntax(i)),
            }
        },
    }
}

/// The lookup a single object makes: a variable asks the map, when there is
/// one.
pub open spec fn obj_calls<T: VariableMap>(o: ObjV, line: int, args: Option<T>) -> Seq<Call> {
    if is_variable(o) && args is Some {
        seq![(line, var_name(o), var_format(o))]
    } else {
        Seq::empty()
    }
}

/// The lookups of a group, up to and including the first that fails.
pub open spec fn group_calls<T: VariableMap>(objs: Seq<ObjV>, line: int, args: Option<T>) -> Seq<Call>
    decreases objs.len(),
{
    if objs.len() == 0 {
        Seq::empty()
    } else if resolve_group(objs.drop_last(), line, args) is Err {
        group_calls(objs.drop_last(), line, args)
    } else {
        group_calls(objs.drop_last(), line, args) + obj_calls(objs.last(), line, args)
    }
}

/// The lookups one token makes: the values of a substitution, and the path
/// and values of a dependency; none in the project section.
pub open spec fn step_calls<T: VariableMap>(st: ParseState, t: TokV, idx: nat, args: Option<T>) -> Seq<
    Call,
> {
    let i = idx + 1int;
    match t {
        TokV::Assign(k, v) => if args is None {
            Seq::empty()
        } else {
            match st.section {
                Section::Subs => if literal_of(k) is Some {
                    group_calls(v, i, args)
                } else {
                    Seq::empty()
                },
                Section::Deps => obj_calls(k, i, args) + if resolve_obj(k, i, args) is Ok {
                    group_calls(v, i, args)
                } else {
                    Seq::empty()
                },
                _ => Seq::empty(),
            }
        },
        _ => Seq::empty(),
    }
}

/// The lookups a parse of the tokens makes, in order, up to the first error.
pub open spec fn run_calls<T: VariableMap>(toks: Seq<(TokV, nat)>, args: Option<T>) -> Seq<Call>
    decreases toks.len(),
{
    if toks.len() == 0 {
        Seq::empty()
    } else {
        match run_config(toks.drop_last(), args) {
            Err(_) => run_calls(toks.drop_last(), args),
            Ok(st) => run_calls(toks.drop_last(), args) + step_calls(
                st,
                toks.last().0,
                toks.last().1,
                args,
            ),
        }
    }
}

/// The lookups the parse of a text makes.
pub open spec fn calls_of<T: VariableMap>(content: Seq<char>, args: Option<T>) -> Seq<Call> {
    run_calls(tokenize(content), args)
}

/// The state after the tokens, or the first error.
pub open spec fn run_config<T: VariableMap>(toks: Seq<(TokV, nat)>, args: Option<T>) -> Result<
    ParseState,
    ErrV,
>
    decreases toks.len(),
{
    if toks.len() == 0 {
        Ok(parse_start())
    } else {
        match run_config(toks.drop_last(), args) {
            Err(e) => Err(e),
            Ok(st) => step_token(st, toks.last().0, toks.last().1, args),
        }
    }
}

pub open spec fn finish(r: Result<ParseState, ErrV>) -> Result<ConfigV, ErrV> {
    match r {
        Err(e) => Err(e),
        Ok(st) => match st.name {
            None => Err(ErrV::MissingName),
            Some(n) => Ok(
                ConfigV {
                    name: n,
                    version: match st.version {
                        Some(v) => v,
                        None => Version { major: 1, minor: 0, patch: 0 },
                    },
                    file_names: match st.file_names {
                        Some(b) => b,
                        None => false,
                    },
                    keys: st.keys,
                    deps: st.deps,
                },
            ),
        },
    }
}

/// The configuration a text describes, or the first error in it.
pub open spec fn config_of<T: VariableMap>(content: Seq<char>, args: Option<T>) -> Result<
    ConfigV,
    ErrV,
> {
    finish(run_config(tokenize(content), args))
}

pub proof fn lemma_run_config_err<T: VariableMap>(toks: Seq<(TokV, nat)>, k: int, args: Option<T>)
    requires
        0 <= k <= toks.len(),
        run_config(toks.subrange(0, k), args) is Err,
    ensures
        run_config(toks, args) == run_config(toks.subrange(0, k), args),
    decreases toks.len() - k,
{
    if k < toks.len() {
        assert(toks.subrange(0, k + 1).drop_last() =~= toks.subrange(0, k));
        lemma_run_config_err(toks, k + 1, args);
    } else {
        assert(toks.subrange(0, k) =~= toks);
    }
}

/// Whether the token assigns to the bare key `key`.
pub open spec fn assigns_key(t: TokV, key: Seq<char>) -> bool {
    match t {
        TokV::Assign(ObjV::Abs(n), _) => n == key,
        _ => false,
    }
}

/// The section that the tags among the tokens leave open.
pub open spec fn section_after(toks: Seq<(TokV, nat)>) -> Section
    decreases toks.len(),
{
    if toks.len() == 0 {
        Section::Unset
    } else {
        match toks.last().0 {
            TokV::Tag(n) => if n == "project"@ {
                Section::Project
            } else if n == "subs"@ {
                Section::Subs
            } else if n == "deps"@ {
                Section::Deps
            } else {
                section_after(toks.drop_last())
            },
            _ => section_after(toks.drop_last()),
        }
    }
}

/// Whether some token in a project section assigns to the bare key `key`.
pub open spec fn assigns_in_project(toks: Seq<(TokV, nat)>, key: Seq<char>) -> bool {
    exists|k: int|
        0 <= k < toks.len() && assigns_key((#[trigger] toks[k]).0, key) && section_after(
            toks.subrange(0, k),
        ) == Section::Project
}

proof fn lemma_unassigned<T: VariableMap>(toks: Seq<(TokV, nat)>, args: Option<T>)
    ensures
        run_config(toks, args) matches Ok(st) ==> st.section == section_after(toks) && (
        !assigns_in_project(toks, "version"@) ==> st.version is None) && (!assigns_in_project(
            toks,
            "file_names"@,
        ) ==> st.file_names is None),
    decreases toks.len(),
{
    if toks.len() > 0 {
        let pre = toks.drop_last();
        lemma_unassigned(pre, args);
        assert forall|k: int| 0 <= k < pre.len() implies #[trigger] pre[k] == toks[k]
            && pre.subrange(0, k) == toks.subrange(0, k) by {
            assert(pre.subrange(0, k) =~= toks.subrange(0, k));
        }
        let last = toks.len() - 1;
        assert(toks[last] == toks.last());
        assert(toks.subrange(0, last) =~= pre);
        if assigns_in_project(pre, "version"@) {
            let k = choose|k: int|
                0 <= k < pre.len() && assigns_key((#[trigger] pre[k]).0, "version"@) && section_after(
                    pre.subrange(0, k),
                ) == Section::Project;
            assert(toks[k] == pre[k]);
        }
        if assigns_in_project(pre, "file_names"@) {
            let k = choose|k: int|
                0 <= k < pre.len() && assigns_key((#[trigger] pre[k]).0, "file_names"@)
                    && section_after(pre.subrange(0, k)) == Section::Project;
            assert(toks[k] == pre[k]);
        }
    }
}

/// A configuration that is accepted and assigns no `version` in a project
/// section has version 1.0.0; one that assigns no `file_names` there leaves
/// file names alone.
pub proof fn lemma_defaults<T: VariableMap>(content: Seq<char>, args: Option<T>)
    requires
        config_of(content, args) is Ok,
    ensures
        !assigns_in_project(tokenize(content), "version"@) ==> config_of(content, args)->Ok_0.version
            == (Version { major: 1, minor: 0, patch: 0 }),
        !assigns_in_project(tokenize(content), "file_names"@) ==> !config_of(
            content,
            args,
        )->Ok_0.file_names,
{
    lemma_unassigned(tokenize(content), args);
}

/// Once a name is set, a further `name` assignment in a project section is
/// rejected as a duplicate, whatever sections stood between the two.
pub proof fn lemma_duplicate_name<T: VariableMap>(content: Seq<char>, args: Option<T>, k: int)
    requires
        0 <= k < tokenize(content).len(),
        run_config(tokenize(content).subrange(0, k), args) matches Ok(st) && st.name is Some
            && st.section == Section::Project,
        assigns_key(tokenize(content)[k].0, "name"@),
    ensures
        config_of(content, args) == Err::<ConfigV, ErrV>(ErrV::DuplicateProperty("name"@)),
{
    let toks = tokenize(content);
    assert(toks.subrange(0, k + 1).drop_last() =~= toks.subrange(0, k));
    lemma_run_config_err(toks, k + 1, args);
}

pub proof fn lemma_group_agree<T: VariableMap>(objs: Seq<ObjV>, line: int, a: Option<T>, b: Option<T>)
    requires
        same_answers(a, b),
    ensures
        resolve_group(objs, line, a) == resolve_group(objs, line, b),
        resolve_obj(objs.last(), line, a) == resolve_obj(objs.last(), line, b),
        group_calls(objs, line, a) == group_calls(objs, line, b),
        obj_calls(objs.last(), line, a) == obj_calls(objs.last(), line, b),
    decreases objs.len(),
{
    if objs.len() > 0 {
        lemma_group_agree(objs.drop_last(), line, a, b);
        let o = objs.last();
        if let (Some(x), Some(y)) = (a, b) {
            assert(x.answer(line, var_name(o), var_format(o)) == y.answer(line, var_name(o), var_format(o)));
        }
    } else {
        let o = objs.last();
        if let (Some(x), Some(y)) = (a, b) {
            assert(x.answer(line, var_name(o), var_format(o)) == y.answer(line, var_name(o), var_format(o)));
        }
    }
}

pub proof fn lemma_step_agree<T: VariableMap>(st: ParseState, t: TokV, idx: nat, a: Option<T>, b: Option<T>)
    requires
        same_answers(a, b),
    ensures
        step_token(st, t, idx, a) == step_token(st, t, idx, b),
        step_calls(st, t, idx, a) == step_calls(st, t, idx, b),
{
    match t {
        TokV::Assign(k, v) => {
            lemma_group_agree(v, idx + 1int, a, b);
            lemma_group_agree(seq![k], idx + 1int, a, b);
            assert(seq![k].last() == k);
        },
        _ => {},
    }
}

// ---------------------------------------------------------------- exec

/// Whether a relative path climbs above the directory it starts in.
pub fn dir_leaves_root(path: &str) -> (r: bool)
    ensures
        r == leaves_root(path@),
{
    let cs = chars_of(path);
    let ranges = split_ranges(&cs, '/');
    let ghost ps = split_on(cs@, '/');
    let mut depth: usize = 0;
    let mut k: usize = 0;
    while k < ranges.len()
        invariant
            cs@ == path@,
            ps == split_on(cs@, '/'),
            ranges@.len() == ps.len(),
            forall|j: int|
                0 <= j < ranges@.len() ==> #[trigger] ranges@[j].0 <= ranges@[j].1 <= cs@.len(),
            forall|j: int|
                0 <= j < ranges@.len() ==> cs@.subrange(ranges@[j].0 as int, ranges@[j].1 as int)
                    == #[trigger] ps[j],
            0 <= k <= ranges.len(),
            depth <= k,
            walk_depth(ps.subrange(0, k as int)) == Some(depth as int),
        decreases ranges.len() - k,
    {
        let (a, b) = ranges[k];
        let ghost c = ps[k as int];
        assert(ps.subrange(0, k + 1).drop_last() =~= ps.subrange(0, k as int));
        assert(cs@.subrange(a as int, b as int) == c);
        if b - a == 2 && cs[a] == '.' && cs[a + 1] == '.' {
            assert(c =~= ".."@) by {
                reveal_strlit("..");
            }
            if depth == 0 {
                assert(walk_depth(ps.subrange(0, k + 1)) is None);
                proof {
                    lemma_walk_none(ps, k as int + 1);
                }
                return true;
            }
            depth = depth - 1;
        } else if b == a || (b - a == 1 && cs[a] == '.') {
            assert(c == "."@ || c.len() == 0) by {
                reveal_strlit(".");
                if b - a == 1 {
                    assert(c =~= "."@);
                }
            }
            assert(c != ".."@) by {
                reveal_strlit("..");
            }
        } else {
            assert(c != ".."@ && c != "."@) by {
                reveal_strlit("..");
                reveal_strlit(".");
                if c.len() == 2 {
                    assert(c[0] == cs@[a as int]);
                    assert(c[1] == cs@[a + 1]);
                }
                if c.len() == 1 {
                    assert(c[0] == cs@[a as int]);
                }
            }
            depth = depth + 1;
        }
        k = k + 1;
    }
    assert(ps.subrange(0, ranges@.len() as int) =~= ps);
    false
}

proof fn lemma_walk_none(ps: Seq<Seq<char>>, k: int)
    requires
        0 <= k <= ps.len(),
        walk_depth(ps.subrange(0, k)) is None,
    ensures
        walk_depth(ps) is None,
    decreases ps.len() - k,
{
    if k < ps.len() {
        assert(ps.subrange(0, k + 1).drop_last() =~= ps.subrange(0, k));
        lemma_walk_none(ps, k + 1);
    } else {
        assert(ps.subrange(0, k) =~= ps);
    }
}

fn resolve_obj_exec<T: VariableMap>(o: &Object, line: usize, args: &mut Option<T>) -> (r: Result<
    String,
    ConfigError,
>)
    ensures
        str_result(r) == resolve_obj(o@, line as int, *old(args)),
        same_answers(*final(args), *old(args)),
        logged(*old(args), *final(args), obj_calls(o@, line as int, *old(args))),
{
    proof {
        lemma_log_unchanged(*args);
    }
    match o {
        Object::Absolute(s) => Ok(s.clone()),
        Object::String(s) => Ok(s.clone()),
        Object::Variable(n) => match args {
            Some(a) => a.map(line, n.as_str(), None),
            None => Err(ConfigError::InvalidSyntax(line)),
        },
        Object::VariableFormat(n, f) => match args {
            Some(a) => a.map(line, n.as_str(), Some(f.clone())),
            None => Err(ConfigError::InvalidSyntax(line)),
        },
    }
}

fn resolve_group_exec<T: VariableMap>(objs: &Vec<Object>, line: usize, args: &mut Option<T>) -> (r:
    Result<String, ConfigError>)
    ensures
        str_result(r) == resolve_group(objs_view(objs@), line as int, *old(args)),
        same_answers(*final(args), *old(args)),
        logged(*old(args), *final(args), group_calls(objs_view(objs@), line as int, *old(args))),
{
    let ghost ov = objs_view(objs@);
    let mut out = String::new();
    let mut i: usize = 0;
    proof {
        lemma_log_unchanged(*args);
        assert(ov.subrange(0, 0) =~= Seq::<ObjV>::empty());
    }
    while i < objs.len()
        invariant
            0 <= i <= objs@.len(),
            ov == objs_view(objs@),
            resolve_group(ov.subrange(0, i as int), line as int, *old(args)) == Ok::<Seq<char>, ErrV>(
                out@,
            ),
            same_answers(*args, *old(args)),
            logged(*old(args), *args, group_calls(ov.subrange(0, i as int), line as int, *old(args))),
        decreases objs.len() - i,
    {
        assert(ov.subrange(0, i + 1).drop_last() =~= ov.subrange(0, i as int));
        assert(ov[i as int] == objs@[i as int]@);
        assert(ov.subrange(0, i + 1).last() == ov[i as int]);
        let ghost before = *args;
        proof {
            lemma_group_agree(ov.subrange(0, i + 1), line as int, *args, *old(args));
        }
        let res = resolve_obj_exec(&objs[i], line, args);
        proof {
            lemma_logged_trans(
                *old(args),
                before,
                *args,
                group_calls(ov.subrange(0, i as int), line as int, *old(args)),
                obj_calls(ov[i as int], line as int, before),
            );
        }
        match res {
            Ok(t) => {
                out.append(t.as_str());
            },
            Err(e) => {
                proof {
                    lemma_group_err(ov, i as int + 1, line as int, *old(args));
                    lemma_group_calls_err(ov, i as int + 1, line as int, *old(args));
                }
                return Err(e);
            },
        }
        i = i + 1;
    }
    assert(ov.subrange(0, objs@.len() as int) =~= ov);
    Ok(out)
}

proof fn lemma_group_calls_err<T: VariableMap>(objs: Seq<ObjV>, k: int, line: int, args: Option<T>)
    requires
        0 <= k <= objs.len(),
        resolve_group(objs.subrange(0, k), line, args) is Err,
    ensures
        group_calls(objs, line, args) == group_calls(objs.subrange(0, k), line, args),
    decreases objs.len() - k,
{
    if k < objs.len() {
        assert(objs.subrange(0, k + 1).drop_last() =~= objs.subrange(0, k));
        lemma_group_calls_err(objs, k + 1, line, args);
    } else {
        assert(objs.subrange(0, k) =~= objs);
    }
}

proof fn lemma_run_calls_err<T: VariableMap>(toks: Seq<(TokV, nat)>, k: int, args: Option<T>)
    requires
        0 <= k <= toks.len(),
        run_config(toks.subrange(0, k), args) is Err,
    ensures
        run_calls(toks, args) == run_calls(toks.subrange(0, k), args),
    decreases toks.len() - k,
{
    if k < toks.len() {
        assert(toks.subrange(0, k + 1).drop_last() =~= toks.subrange(0, k));
        lemma_run_calls_err(toks, k + 1, args);
    } else {
        assert(toks.subrange(0, k) =~= toks);
    }
}

proof fn lemma_group_err<T: VariableMap>(objs: Seq<ObjV>, k: int, line: int, args: Option<T>)
    requires
        0 <= k <= objs.len(),
        resolve_group(objs.subrange(0, k), line, args) is Err,
    ensures
        resolve_group(objs, line, args) == resolve_group(objs.subrange(0, k), line, args),
    decreases objs.len() - k,
{
    if k < objs.len() {
        assert(objs.subrange(0, k + 1).drop_last() =~= objs.subrange(0, k));
        lemma_group_err(objs, k + 1, line, args);
    } else {
        assert(objs.subrange(0, k) =~= objs);
    }
}

/// The parser's state as it goes.
struct ParseCursor {
    section: Section,
    name: Option<String>,
    version: Option<Version>,
    file_names: Option<bool>,
    keys: Vec<(String, String)>,
    deps: Vec<(String, String)>,
}

impl View for ParseCursor {
    type V = ParseState;

    closed spec fn view(&self) -> ParseState {
        ParseState {
            section: self.section,
            name: match self.name {
                Some(n) => Some(n@),
                None => None,
            },
            version: self.version,
            file_names: self.file_names,
            keys: pairs_of(self.keys@),
            deps: pairs_of(self.deps@),
        }
    }
}

fn bool_from(s: &String) -> (r: Option<bool>)
    ensures
        r == bool_of(s@),
{
    if eq_lit(s.as_str(), "true") {
        Some(true)
    } else if eq_lit(s.as_str(), "false") {
        Some(false)
    } else {
        None
    }
}

fn apply_token<T: VariableMap>(st: &mut ParseCursor, t: &Token, idx: usize, args: &mut Option<T>) -> (r:
    Result<(), ConfigError>)
    requires
        idx < usize::MAX,
    ensures
        same_answers(*final(args), *old(args)),
        match step_token(old(st)@, t@, idx as nat, *old(args)) {
            Ok(s2) => r is Ok && final(st)@ == s2,
            Err(e) => r matches Err(x) && x@ == e,
        },
        logged(*old(args), *final(args), step_calls(old(st)@, t@, idx as nat, *old(args))),
{
    let i = idx + 1;
    proof {
        lemma_log_unchanged(*args);
    }
    if let Token::Tag(name) = t {
        let n = name.as_str();
        if eq_lit(n, "project") {
            st.section = Section::Project;
        } else if eq_lit(n, "subs") {
            st.section = Section::Subs;
        } else if eq_lit(n, "deps") {
            st.section = Section::Deps;
        } else {
            return Err(ConfigError::UnknownTag(i, name.clone()));
        }
        return Ok(());
    }
    if args.is_none() && st.section != Section::Project {
        return Ok(());
    }
    match st.section {
        Section::Project => {
            match t {
                Token::Assign(Object::Absolute(n), v) => {
                    let mut none: Option<T> = None;
                    if eq_lit(n.as_str(), "name") {
                        if st.name.is_some() {
                            return Err(ConfigError::DuplicateProperty("name".to_owned()));
                        }
                        match resolve_group_exec(v, i, &mut none) {
                            Ok(s) => {
                                st.name = Some(s);
                                Ok(())
                            },
                            Err(e) => Err(e),
                        }
                    } else if eq_lit(n.as_str(), "file_names") {
                        if st.file_names.is_some() {
                            return Err(ConfigError::DuplicateProperty("file_names".to_owned()));
                        }
                        match resolve_group_exec(v, i, &mut none) {
                            Ok(s) => match bool_from(&s) {
                                Some(b) => {
                                    st.file_names = Some(b);
                                    Ok(())
                                },
                                None => Err(ConfigError::InvalidSyntax(i)),
                            },
                            Err(e) => Err(e),
                        }
                    } else if eq_lit(n.as_str(), "version") {
                        if st.version.is_some() {
                            return Err(ConfigError::DuplicateProperty("version".to_owned()));
                        }
                        match resolve_group_exec(v, i, &mut none) {
                            Ok(s) => match Version::from_str(s.as_str()) {
                                Ok(ver) => {
                                    st.version = Some(ver);
                                    Ok(())
                                },
                                Err(_) => Err(ConfigError::InvalidSyntax(i)),
                            },
                            Err(e) => Err(e),
                        }
                    } else {
                        Err(ConfigError::UnknownProperty(i, n.clone()))
                    }
                },
                _ => Err(ConfigError::InvalidSyntax(i)),
            }
        },
        Section::Subs => {
            match t {
                Token::Assign(k, v) => {
                    let key = match k {
                        Object::Absolute(s) => s.clone(),
                        Object::String(s) => s.clone(),
                        _ => return Err(ConfigError::InvalidSyntax(i)),
                    };
                    match resolve_group_exec(v, i, args) {
                        Ok(s) => {
                            let ghost k0 = st.keys@;
                            st.keys.push((key, s));
                            assert(pairs_of(st.keys@) =~= pairs_of(k0).push((key@, s@)));
                            Ok(())
                        },
                        Err(e) => Err(e),
                    }
                },
                _ => Err(ConfigError::InvalidSyntax(i)),
            }
        },
        Section::Deps => {
            match t {
                Token::Assign(k, v) => {
                    let ghost kc = obj_calls(k@, i as int, *old(args));
                    let path = match resolve_obj_exec(k, i, args) {
                        Ok(p) => p,
                        Err(e) => {
                            assert(kc + Seq::<Call>::empty() =~= kc);
                            return Err(e);
                        },
                    };
                    let ghost mid = *args;
                    proof {
                        lemma_group_agree(objs_view(v@), i as int, *args, *old(args));
                    }
                    let res = resolve_group_exec(v, i, args);
                    proof {
                        lemma_logged_trans(
                            *old(args),
                            mid,
                            *args,
                            kc,
                            group_calls(objs_view(v@), i as int, mid),
                        );
                    }
                    let url = match res {
                        Ok(u) => u,
                        Err(e) => return Err(e),
                    };
                    if dir_leaves_root(path.as_str()) {
                        return Err(ConfigError::DependencyOutsideProject(i, path));
                    }
                    let ghost d0 = st.deps@;
                    st.deps.push((path, url));
                    assert(pairs_of(st.deps@) =~= pairs_of(d0).push((path@, url@)));
                    Ok(())
                },
                _ => Err(ConfigError::InvalidSyntax(i)),
            }
        },
        Section::Unset => Err(ConfigError::InvalidSyntax(i)),
    }
}

impl Config {
    /// Parses a configuration text. Variables are resolved through `args`;
    /// without `args` only the project section is read and the other
    /// sections are skipped. Which lookups the parse makes is stated by
    /// [`Config::parse_with`], which leaves the map with the caller: for a
    /// map that keeps a log (such as `VarCounter`) its log grows by exactly
    /// `calls_of(content, args)`; a map that keeps none, such as `ConfigArgs`
    /// or `()`, offers nothing to observe them by.
    pub fn from_content<T: VariableMap>(content: &str, args: Option<T>) -> (r: Result<
        Config,
        ConfigError,
    >)
        ensures
            config_result_view(r) == config_of(content@, args),
    {
        let mut args = args;
        Config::parse_with(content, &mut args)
    }

    /// As [`Config::from_content`], leaving the map with the caller.
    pub fn parse_with<T: VariableMap>(content: &str, args: &mut Option<T>) -> (r: Result<
        Config,
        ConfigError,
    >)
        ensures
            config_result_view(r) == config_of(content@, *old(args)),
            same_answers(*final(args), *old(args)),
            logged(*old(args), *final(args), calls_of(content@, *old(args))),
    {
        proof {
            lemma_log_unchanged(*args);
        }
        let tokens = Token::from_content(content);
        let ghost toks = pairs_view(tokens@);
        let mut st = ParseCursor {
            section: Section::Unset,
            name: None,
            version: None,
            file_names: None,
            keys: Vec::new(),
            deps: Vec::new(),
        };
        proof {
            assert(run_calls(toks.subrange(0, 0), *old(args)) =~= Seq::<Call>::empty());
            assert(pairs_of(st.keys@) =~= Seq::<(Seq<char>, Seq<char>)>::empty());
            assert(pairs_of(st.deps@) =~= Seq::<(Seq<char>, Seq<char>)>::empty());
            assert(toks.subrange(0, 0) =~= Seq::<(TokV, nat)>::empty());
        }
        let mut k: usize = 0;
        while k < tokens.len()
            invariant
                0 <= k <= tokens@.len(),
                toks == pairs_view(tokens@),
                toks == tokenize(content@),
                forall|j: int| 0 <= j < tokens@.len() ==> #[trigger] tokens@[j].1 < usize::MAX,
                run_config(toks.subrange(0, k as int), *old(args)) == Ok::<ParseState, ErrV>(st@),
                same_answers(*args, *old(args)),
                logged(*old(args), *args, run_calls(toks.subrange(0, k as int), *old(args))),
            decreases tokens.len() - k,
        {
            assert(toks.subrange(0, k + 1).drop_last() =~= toks.subrange(0, k as int));
            assert(toks[k as int] == (tokens@[k as int].0@, tokens@[k as int].1 as nat));
            let ghost before = *args;
            let ghost st0 = st@;
            proof {
                lemma_step_agree(st@, toks[k as int].0, toks[k as int].1, *args, *old(args));
            }
            let r = apply_token(&mut st, &tokens[k].0, tokens[k].1, args);
            proof {
                lemma_logged_trans(
                    *old(args),
                    before,
                    *args,
                    run_calls(toks.subrange(0, k as int), *old(args)),
                    step_calls(st0, toks[k as int].0, toks[k as int].1, before),
                );
            }
            if let Err(e) = r {
                proof {
                    lemma_run_config_err(toks, k as int + 1, *old(args));
                    lemma_run_calls_err(toks, k as int + 1, *old(args));
                }
                return Err(e);
            }
            k = k + 1;
        }
        assert(toks.subrange(0, tokens@.len() as int) =~= toks);
        match st.name {
            None => Err(ConfigError::MissingName),
            Some(name) => Ok(
                Config {
                    name,
                    version: match st.version {
                        Some(v) => v,
                        None => Version::new(1, 0, 0),
                    },
                    file_names: match st.file_names {
                        Some(b) => b,
                        None => false,
                    },
                    keys: st.keys,
                    deps: st.deps,
                },
            ),
        }
    }
}

} // verus!
