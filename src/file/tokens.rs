//! The token model of the configuration language, and how tokens are written
//! back out as text.
use vstd::prelude::*;
use vstd::string::StringExecFns;
use crate::chars::{
    char_is_whitespace, chars_of, is_space,
    push_all, push_str, string_of,
};

verus! {

/// One unit of a line: a bare word, a quoted string, or a variable reference
/// with or without a format.
#[derive(Debug, Clone, PartialEq, Eq)]
pub enum Object {
    Absolute(String),
    String(String),
    Variable(String),
    VariableFormat(String, String),
}

/// One meaningful line: a `[tag]`, a `key = values` assignment, or a bare
/// list of objects.
#[derive(Debug, Clone, PartialEq, Eq)]
pub enum Token {
    Tag(String),
    Assign(Object, Vec<Object>),
    Declare(Vec<Object>),
}

/// What an [`Object`] holds, as character sequences.
pub enum ObjV {
    Abs(Seq<char>),
    Str(Seq<char>),
    Var(Seq<char>),
    VarFmt(Seq<char>, Seq<char>),
}

/// What a [`Token`] holds.
pub enum TokV {
    Tag(Seq<char>),
    Assign(ObjV, Seq<ObjV>),
    Declare(Seq<ObjV>),
}

impl View for Object {
    type V = ObjV;

    open spec fn view(&self) -> ObjV {
        match self {
            Object::Absolute(s) => ObjV::Abs(s@),
            Object::String(s) => ObjV::Str(s@),
            Object::Variable(v) => ObjV::Var(v@),
            Object::VariableFormat(v, f) => ObjV::VarFmt(v@, f@),
        }
    }
}

pub open spec fn objs_view(v: Seq<Object>) -> Seq<ObjV> {
    v.map_values(|o: Object| o@)
}

impl View for Token {
    type V = TokV;

    open spec fn view(&self) -> TokV {
        match self {
            Token::Tag(n) => TokV::Tag(n@),
            Token::Assign(k, vs) => TokV::Assign(k@, objs_view(vs@)),
            Token::Declare(vs) => TokV::Declare(objs_view(vs@)),
        }
    }
}

pub open spec fn toks_view(v: Seq<Token>) -> Seq<TokV> {
    v.map_values(|t: Token| t@)
}

pub proof fn lemma_objs_view_push(v: Seq<Object>, o: Object)
    ensures
        objs_view(v.push(o)) == objs_view(v).push(o@),
{
    assert(objs_view(v.push(o)) =~= objs_view(v).push(o@));
}

/// Whether `var`, called with the name and format of the variable `vo`,
/// can answer with the text `t`.
pub open spec fn answered_at<E, F: Fn(&str, Option<String>) -> Result<String, E>>(
    var: F,
    vo: ObjV,
    t: Seq<char>,
) -> bool {
    exists|n: &str, f: Option<String>, s: String|
        s@ == t && n@ == var_name(vo) && opt_chars(f) == var_format(vo) && #[trigger] var.ensures(
            (n, f),
            Ok::<String, E>(s),
        )
}

/// Whether `var`, called with the name and format of the variable `vo`,
/// can fail with `e`.
pub open spec fn failed_at<E, F: Fn(&str, Option<String>) -> Result<String, E>>(
    var: F,
    vo: ObjV,
    e: E,
) -> bool {
    exists|n: &str, f: Option<String>|
        n@ == var_name(vo) && opt_chars(f) == var_format(vo) && #[trigger] var.ensures(
            (n, f),
            Err::<String, E>(e),
        )
}

/// The literal text an object contributes, where it has one.
pub open spec fn literal_of(o: ObjV) -> Option<Seq<char>> {
    match o {
        ObjV::Abs(s) => Some(s),
        ObjV::Str(s) => Some(s),
        _ => None,
    }
}

pub open spec fn is_variable(o: ObjV) -> bool {
    o is Var || o is VarFmt
}

pub open spec fn var_name(o: ObjV) -> Seq<char> {
    match o {
        ObjV::Var(v) => v,
        ObjV::VarFmt(v, _) => v,
        _ => Seq::empty(),
    }
}

pub open spec fn opt_chars(f: Option<String>) -> Option<Seq<char>> {
    match f {
        Some(s) => Some(s@),
        None => None,
    }
}

pub open spec fn var_format(o: ObjV) -> Option<Seq<char>> {
    match o {
        ObjV::VarFmt(_, f) => Some(f),
        _ => None,
    }
}

/// The objects' text with each variable in turn replaced by the next of `fills`.
pub open spec fn filled(objs: Seq<ObjV>, fills: Seq<Seq<char>>) -> Seq<char>
    decreases objs.len(),
{
    if objs.len() == 0 {
        Seq::empty()
    } else {
        let o = objs.last();
        if is_variable(o) {
            filled(objs.drop_last(), fills.drop_last()) + fills.last()
        } else {
            filled(objs.drop_last(), fills) + literal_of(o).unwrap()
        }
    }
}

pub open spec fn count_vars(objs: Seq<ObjV>) -> nat
    decreases objs.len(),
{
    if objs.len() == 0 {
        0
    } else {
        count_vars(objs.drop_last()) + if is_variable(objs.last()) { 1nat } else { 0nat }
    }
}

/// The variables among the objects, in order.
pub open spec fn vars_of(objs: Seq<ObjV>) -> Seq<ObjV>
    decreases objs.len(),
{
    if objs.len() == 0 {
        Seq::empty()
    } else if is_variable(objs.last()) {
        vars_of(objs.drop_last()).push(objs.last())
    } else {
        vars_of(objs.drop_last())
    }
}

pub proof fn lemma_vars_of(objs: Seq<ObjV>, k: int)
    requires
        0 <= k <= objs.len(),
    ensures
        count_vars(objs) == vars_of(objs).len(),
        vars_of(objs.subrange(0, k)).len() <= vars_of(objs).len(),
        forall|j: int|
            0 <= j < vars_of(objs.subrange(0, k)).len() ==> #[trigger] vars_of(objs.subrange(0, k))[j]
                == vars_of(objs)[j],
    decreases objs.len() - k,
{
    if k < objs.len() {
        lemma_vars_of(objs, k + 1);
        assert(objs.subrange(0, k + 1).drop_last() =~= objs.subrange(0, k));
        let a = vars_of(objs.subrange(0, k));
        let b = vars_of(objs.subrange(0, k + 1));
        assert forall|j: int| 0 <= j < a.len() implies #[trigger] a[j] == vars_of(objs)[j] by {
            assert(a[j] == b[j]);
        }
    } else {
        assert(objs.subrange(0, k) =~= objs);
        lemma_count_is_vars(objs);
    }
}

proof fn lemma_count_is_vars(objs: Seq<ObjV>)
    ensures
        count_vars(objs) == vars_of(objs).len(),
    decreases objs.len(),
{
    if objs.len() > 0 {
        lemma_count_is_vars(objs.drop_last());
    }
}

pub proof fn lemma_count_vars_prefix(objs: Seq<ObjV>, k: int)
    requires
        0 <= k <= objs.len(),
    ensures
        count_vars(objs.subrange(0, k)) <= count_vars(objs),
    decreases objs.len() - k,
{
    if k < objs.len() {
        lemma_count_vars_prefix(objs, k + 1);
        assert(objs.subrange(0, k + 1).drop_last() =~= objs.subrange(0, k));
    } else {
        assert(objs.subrange(0, k) =~= objs);
    }
}

/// The text of objects that hold no variable.
pub open spec fn plain_text(objs: Seq<ObjV>) -> Seq<char> {
    filled(objs, Seq::empty())
}

/// The literal text of objects that hold no variable, or None.
pub open spec fn plain_of(objs: Seq<ObjV>) -> Option<Seq<char>>
    decreases objs.len(),
{
    if objs.len() == 0 {
        Some(Seq::empty())
    } else {
        match plain_of(objs.drop_last()) {
            None => None,
            Some(s) => match literal_of(objs.last()) {
                Some(t) => Some(s + t),
                None => None,
            },
        }
    }
}

proof fn lemma_plain_none(objs: Seq<ObjV>, k: int)
    requires
        0 <= k <= objs.len(),
        plain_of(objs.subrange(0, k)) is None,
    ensures
        plain_of(objs) is None,
    decreases objs.len() - k,
{
    if k < objs.len() {
        assert(objs.subrange(0, k + 1).drop_last() =~= objs.subrange(0, k));
        lemma_plain_none(objs, k + 1);
    } else {
        assert(objs.subrange(0, k) =~= objs);
    }
}

impl Object {
    /// The objects' literal texts one after another, or None when one of
    /// them is a variable.
    pub fn group_plain(objs: &Vec<Object>) -> (r: Option<String>)
        ensures
            opt_chars(r) == plain_of(objs_view(objs@)),
    {
        let ghost ov = objs_view(objs@);
        let mut out: Vec<char> = Vec::new();
        let mut i: usize = 0;
        assert(ov.subrange(0, 0) =~= Seq::<ObjV>::empty());
        while i < objs.len()
            invariant
                0 <= i <= objs@.len(),
                ov == objs_view(objs@),
                plain_of(ov.subrange(0, i as int)) == Some(out@),
            decreases objs.len() - i,
        {
            assert(ov.subrange(0, i + 1).drop_last() =~= ov.subrange(0, i as int));
            assert(ov[i as int] == objs@[i as int]@);
            match &objs[i] {
                Object::Absolute(s) => push_str(&mut out, s.as_str()),
                Object::String(s) => push_str(&mut out, s.as_str()),
                _ => {
                    proof {
                        lemma_plain_none(ov, i + 1);
                    }
                    return None;
                },
            }
            i = i + 1;
        }
        assert(ov.subrange(0, objs@.len() as int) =~= ov);
        Some(string_of(&out))
    }
}

// ---------------------------------------------------------------- writing

pub open spec fn escape_bare(c: char) -> Seq<char> {
    if is_space(c) || c == '"' || c == '\\' || c == '$' || c == '=' {
        seq!['\\', c]
    } else {
        seq![c]
    }
}

pub open spec fn escape_quoted(c: char) -> Seq<char> {
    if c == '"' || c == '\\' {
        seq!['\\', c]
    } else {
        seq![c]
    }
}

pub open spec fn bare_text(s: Seq<char>) -> Seq<char>
    decreases s.len(),
{
    if s.len() == 0 {
        Seq::empty()
    } else {
        bare_text(s.drop_last()) + escape_bare(s.last())
    }
}

pub open spec fn quoted_body(s: Seq<char>) -> Seq<char>
    decreases s.len(),
{
    if s.len() == 0 {
        Seq::empty()
    } else {
        quoted_body(s.drop_last()) + escape_quoted(s.last())
    }
}

pub open spec fn quoted_text(s: Seq<char>) -> Seq<char> {
    seq!['"'] + quoted_body(s) + seq!['"']
}

/// How an object is written.
pub open spec fn object_text(o: ObjV) -> Seq<char> {
    match o {
        ObjV::Abs(s) => bare_text(s),
        ObjV::Str(s) => quoted_text(s),
        ObjV::Var(v) => seq!['$'] + v,
        ObjV::VarFmt(v, f) => seq!['$'] + v + seq![':'] + quoted_text(f),
    }
}

/// Objects written one after another, each preceded by a space.
pub open spec fn spaced_text(objs: Seq<ObjV>) -> Seq<char>
    decreases objs.len(),
{
    if objs.len() == 0 {
        Seq::empty()
    } else {
        spaced_text(objs.drop_last()) + seq![' '] + object_text(objs.last())
    }
}

/// Objects written with one space between each two.
pub open spec fn joined_text(objs: Seq<ObjV>) -> Seq<char>
    decreases objs.len(),
{
    if objs.len() == 0 {
        Seq::empty()
    } else if objs.len() == 1 {
        object_text(objs[0])
    } else {
        joined_text(objs.drop_last()) + seq![' '] + object_text(objs.last())
    }
}

/// How a token is written, without the line break.
pub open spec fn token_text(t: TokV) -> Seq<char> {
    match t {
        TokV::Tag(n) => seq!['['] + n + seq![']'],
        TokV::Assign(k, vs) => object_text(k) + seq![' ', '='] + spaced_text(vs),
        TokV::Declare(vs) => joined_text(vs),
    }
}

/// A token stream written one token per line.
pub open spec fn content_text(ts: Seq<TokV>) -> Seq<char>
    decreases ts.len(),
{
    if ts.len() == 0 {
        Seq::empty()
    } else {
        content_text(ts.drop_last()) + token_text(ts.last()) + seq!['\n']
    }
}

fn write_escaped(out: &mut Vec<char>, s: &String, bare: bool)
    ensures
        final(out)@ == old(out)@ + if bare { bare_text(s@) } else { quoted_body(s@) },
{
    let cs = chars_of(s.as_str());
    let ghost start = out@;
    let mut i: usize = 0;
    while i < cs.len()
        invariant
            0 <= i <= cs.len(),
            cs@ == s@,
            out@ == start + if bare { bare_text(cs@.subrange(0, i as int)) } else {
                quoted_body(cs@.subrange(0, i as int))
            },
        decreases cs.len() - i,
    {
        let c = cs[i];
        let special = if bare {
            char_is_whitespace(c) || c == '"' || c == '\\' || c == '$' || c == '='
        } else {
            c == '"' || c == '\\'
        };
        if special {
            out.push('\\');
        }
        out.push(c);
        let ghost pre = cs@.subrange(0, i as int);
        i = i + 1;
        assert(cs@.subrange(0, i as int).drop_last() =~= pre);
    }
    assert(cs@.subrange(0, cs.len() as int) =~= cs@);
}

fn write_quoted(out: &mut Vec<char>, s: &String)
    ensures
        final(out)@ == old(out)@ + quoted_text(s@),
{
    out.push('"');
    write_escaped(out, s, false);
    out.push('"');
    assert(out@ =~= old(out)@ + quoted_text(s@));
}

impl Object {
    /// The text of a bare word.
    pub fn get_abs(&self) -> (r: Option<&str>)
        ensures
            match self@ {
                ObjV::Abs(s) => r is Some && r->Some_0@ == s,
                _ => r is None,
            },
    {
        match self {
            Object::Absolute(s) => Some(s.as_str()),
            _ => None,
        }
    }

    /// The literal text of a bare word or a quoted string.
    pub fn try_get_string(self) -> (r: Option<String>)
        ensures
            match literal_of(self@) {
                Some(s) => r is Some && r->Some_0@ == s,
                None => r is None,
            },
    {
        match self {
            Object::Absolute(s) => Some(s),
            Object::String(s) => Some(s),
            _ => None,
        }
    }

    /// The object's text; a variable is handed to `var` with its format.
    pub fn to_string_err<E, F>(self, var: F) -> (r: Result<String, E>)
        where
            F: FnOnce(&str, Option<String>) -> Result<String, E>,
        requires
            forall|n: &str, f: Option<String>| var.requires((n, f)),
        ensures
            match literal_of(self@) {
                Some(s) => r is Ok && r->Ok_0@ == s,
                None => exists|n: &str, f: Option<String>|
                    n@ == var_name(self@) && opt_chars(f) == var_format(self@) && var.ensures((n, f), r),
            },
    {
        match self {
            Object::Absolute(s) => Ok(s),
            Object::String(s) => Ok(s),
            Object::Variable(n) => var(n.as_str(), None),
            Object::VariableFormat(n, f) => var(n.as_str(), Some(f)),
        }
    }

    /// The objects' texts, one after another; each variable is replaced by
    /// what `var` gives for it, and the first error of `var` is returned.
    pub fn group_to_string_err<E, F>(selfs: Vec<Object>, var: F) -> (r: Result<String, E>)
        where
            F: Fn(&str, Option<String>) -> Result<String, E>,
        requires
            forall|n: &str, f: Option<String>| var.requires((n, f)),
        ensures
            count_vars(objs_view(selfs@)) == 0 ==> r is Ok && r->Ok_0@ == plain_text(
                objs_view(selfs@),
            ),
            r is Ok ==> exists|fills: Seq<Seq<char>>|
                fills.len() == vars_of(objs_view(selfs@)).len() && r->Ok_0@ == filled(
                    objs_view(selfs@),
                    fills,
                ) && forall|j: int|
                    0 <= j < fills.len() ==> answered_at::<E, F>(
                        var,
                        vars_of(objs_view(selfs@))[j],
                        #[trigger] fills[j],
                    ),
            r matches Err(e) ==> exists|fills: Seq<Seq<char>>|
                fills.len() < vars_of(objs_view(selfs@)).len() && (forall|j: int|
                    0 <= j < fills.len() ==> answered_at::<E, F>(
                        var,
                        vars_of(objs_view(selfs@))[j],
                        #[trigger] fills[j],
                    )) && failed_at::<E, F>(var, vars_of(objs_view(selfs@))[fills.len() as int], e),
    {
        let mut out: Vec<char> = Vec::new();
        let ghost objs = objs_view(selfs@);
        let ghost vs = vars_of(objs);
        let ghost mut fills: Seq<Seq<char>> = Seq::empty();
        let mut i: usize = 0;
        proof {
            lemma_vars_of(objs, 0);
        }
        while i < selfs.len()
            invariant
                0 <= i <= selfs.len(),
                objs == objs_view(selfs@),
                vs == vars_of(objs),
                forall|n: &str, f: Option<String>| var.requires((n, f)),
                fills.len() == count_vars(objs.subrange(0, i as int)),
                fills.len() == vars_of(objs.subrange(0, i as int)).len(),
                out@ == filled(objs.subrange(0, i as int), fills),
                forall|j: int| 0 <= j < fills.len() ==> answered_at::<E, F>(var, vs[j], #[trigger] fills[j]),
            decreases selfs.len() - i,
        {
            let ghost pre = objs.subrange(0, i as int);
            assert(objs[i as int] == selfs@[i as int]@);
            proof {
                lemma_vars_of(objs, i + 1);
                lemma_count_vars_prefix(objs, i + 1);
                assert(objs.subrange(0, i + 1).drop_last() =~= pre);
                if is_variable(objs[i as int]) {
                    assert(vars_of(objs.subrange(0, i + 1)) == vars_of(pre).push(objs[i as int]));
                    assert(vars_of(objs.subrange(0, i + 1))[fills.len() as int] == objs[i as int]);
                    assert(vs[fills.len() as int] == objs[i as int]);
                }
            }
            let piece = match &selfs[i] {
                Object::Absolute(s) => s.clone(),
                Object::String(s) => s.clone(),
                Object::Variable(n) => {
                    let ns = n.as_str();
                    let res = var(ns, None);
                    assert(var.ensures((ns, None::<String>), res));
                    match res {
                        Ok(t) => t,
                        Err(e) => {
                            assert(failed_at::<E, F>(var, vs[fills.len() as int], e));
                            return Err(e);
                        },
                    }
                },
                Object::VariableFormat(n, f) => {
                    let fc = f.clone();
                    let ns = n.as_str();
                    let ghost fg = Some(fc);
                    let res = var(ns, Some(fc));
                    assert(var.ensures((ns, fg), res));
                    match res {
                        Ok(t) => t,
                        Err(e) => {
                            assert(failed_at::<E, F>(var, vs[fills.len() as int], e));
                            return Err(e);
                        },
                    }
                },
            };
            let ghost old_fills = fills;
            proof {
                if is_variable(objs[i as int]) {
                    assert(answered_at::<E, F>(var, vs[old_fills.len() as int], piece@));
                    fills = fills.push(piece@);
                    assert(fills.drop_last() =~= old_fills);
                    assert(fills[fills.len() - 1] == piece@);
                } else {
                    assert(piece@ == literal_of(objs[i as int]).unwrap());
                }
            }
            let pcs = chars_of(piece.as_str());
            push_all(&mut out, &pcs);
            i = i + 1;
            assert(objs.subrange(0, i as int).drop_last() =~= pre);
        }
        assert(objs.subrange(0, selfs.len() as int) =~= objs);
        assert(fills.len() == 0 ==> fills =~= Seq::<Seq<char>>::empty());
        Ok(string_of(&out))
    }

    /// Appends the written form of the object.
    pub fn write_to_string(&self, string: &mut String)
        ensures
            final(string)@ == old(string)@ + object_text(self@),
    {
        let mut out: Vec<char> = Vec::new();
        self.write_chars(&mut out);
        let s = string_of(&out);
        string.append(s.as_str());
    }

    pub(crate) fn write_chars(&self, out: &mut Vec<char>)
        ensures
            final(out)@ == old(out)@ + object_text(self@),
    {
        match self {
            Object::Absolute(s) => {
                write_escaped(out, s, true);
            },
            Object::String(s) => {
                write_quoted(out, s);
            },
            Object::Variable(v) => {
                out.push('$');
                push_str(out, v.as_str());
                assert(out@ =~= old(out)@ + object_text(self@));
            },
            Object::VariableFormat(v, f) => {
                out.push('$');
                push_str(out, v.as_str());
                out.push(':');
                write_quoted(out, f);
                assert(out@ =~= old(out)@ + object_text(self@));
            },
        }
    }
}

impl Token {
    /// The key and values of an assignment whose key is a bare word.
    pub fn get_set(self) -> (r: Option<(String, Vec<Object>)>)
        ensures
            match self@ {
                TokV::Assign(ObjV::Abs(k), vs) => r is Some && r->Some_0.0@ == k && objs_view(
                    r->Some_0.1@,
                ) == vs,
                _ => r is None,
            },
    {
        match self {
            Token::Assign(Object::Absolute(k), vs) => Some((k, vs)),
            _ => None,
        }
    }

    /// The tokens written one per line.
    pub fn to_content(tokens: &[Token]) -> (r: String)
        ensures
            r@ == content_text(toks_view(tokens@)),
    {
        let mut out: Vec<char> = Vec::new();
        let mut i: usize = 0;
        while i < tokens.len()
            invariant
                0 <= i <= tokens.len(),
                out@ == content_text(toks_view(tokens@.subrange(0, i as int))),
            decreases tokens.len() - i,
        {
            let ghost pre = toks_view(tokens@.subrange(0, i as int));
            tokens[i].write_chars(&mut out);
            out.push('\n');
            i = i + 1;
            assert(toks_view(tokens@.subrange(0, i as int)).drop_last() =~= pre);
        }
        assert(tokens@.subrange(0, tokens.len() as int) =~= tokens@);
        string_of(&out)
    }

    pub(crate) fn write_chars(&self, out: &mut Vec<char>)
        ensures
            final(out)@ == old(out)@ + token_text(self@),
    {
        match self {
            Token::Tag(name) => {
                out.push('[');
                push_str(out, name.as_str());
                out.push(']');
                assert(out@ =~= old(out)@ + token_text(self@));
            },
            Token::Assign(name, values) => {
                name.write_chars(out);
                out.push(' ');
                out.push('=');
                let ghost head = out@;
                let ghost vs = objs_view(values@);
                let mut i: usize = 0;
                while i < values.len()
                    invariant
                        0 <= i <= values.len(),
                        vs == objs_view(values@),
                        out@ == head + spaced_text(vs.subrange(0, i as int)),
                    decreases values.len() - i,
                {
                    let ghost pre = vs.subrange(0, i as int);
                    out.push(' ');
                    values[i].write_chars(out);
                    i = i + 1;
                    assert(vs.subrange(0, i as int).drop_last() =~= pre);
                    assert(out@ =~= head + spaced_text(vs.subrange(0, i as int)));
                }
                assert(vs.subrange(0, values.len() as int) =~= vs);
                assert(out@ =~= old(out)@ + token_text(self@));
            },
            Token::Declare(values) => {
                let ghost head = out@;
                let ghost vs = objs_view(values@);
                let mut i: usize = 0;
                while i < values.len()
                    invariant
                        0 <= i <= values.len(),
                        vs == objs_view(values@),
                        out@ == head + joined_text(vs.subrange(0, i as int)),
                    decreases values.len() - i,
                {
                    let ghost pre = vs.subrange(0, i as int);
                    if i > 0 {
                        out.push(' ');
                    }
                    values[i].write_chars(out);
                    i = i + 1;
                    assert(vs.subrange(0, i as int).drop_last() =~= pre);
                    assert(out@ =~= head + joined_text(vs.subrange(0, i as int)));
                }
                assert(vs.subrange(0, values.len() as int) =~= vs);
                assert(out@ =~= old(out)@ + token_text(self@));
            },
        }
    }
}

} // verus!
